//! Perspective matrices: nine entries, row by row.

use crate::algebra::{
    lemma_cofactor, lemma_commutes, lemma_constants, lemma_factor_out, lemma_binet_cauchy,
    lemma_product_over, lemma_reciprocal, lemma_rows_compose, lemma_sums_compose,
    lemma_vector_product_order, lemma_volume_flat, lemma_volume_transposes, lemma_volume_turns,
    cross, over, times, volume,
};
use crate::image::ImageError;
use crate::scalar::{nought, unit, Arith, Exact, Scalar};
use vstd::prelude::*;

verus! {

/// `m[a] * m[b] - m[c] * m[d]`.
pub open spec fn minor<A: Arith>(m: Seq<A>, a: int, b: int, c: int, d: int) -> A {
    m[a].times(m[b]).minus(m[c].times(m[d]))
}

/// The determinant, expanded along the first row.
pub open spec fn determinant<A: Arith>(m: Seq<A>) -> A {
    m[0].times(minor(m, 4, 8, 5, 7)).minus(m[1].times(minor(m, 3, 8, 5, 6))).plus(
        m[2].times(minor(m, 3, 7, 4, 6)),
    )
}

/// The transposed matrix of cofactors.
pub open spec fn adjugate<A: Arith>(m: Seq<A>) -> Seq<A> {
    seq![
        minor(m, 4, 8, 5, 7),
        minor(m, 2, 7, 1, 8),
        minor(m, 1, 5, 2, 4),
        minor(m, 5, 6, 3, 8),
        minor(m, 0, 8, 2, 6),
        minor(m, 2, 3, 0, 5),
        minor(m, 3, 7, 4, 6),
        minor(m, 1, 6, 0, 7),
        minor(m, 0, 4, 1, 3),
    ]
}

/// Whether the determinant counts as 0.
pub open spec fn singular<A: Arith>(m: Seq<A>) -> bool {
    determinant(m).same(nought())
}

/// The adjugate, each entry times the reciprocal of the determinant.
pub open spec fn inverse<A: Arith>(m: Seq<A>) -> Seq<A> {
    let reciprocal = unit::<A>().over(determinant(m));
    Seq::new(9, |i: int| adjugate(m)[i].times(reciprocal))
}

/// `m[row] * x + m[row + 1] * y + m[row + 2]`.
pub open spec fn row_at<A: Arith>(m: Seq<A>, row: int, x: A, y: A) -> A {
    m[row].times(x).plus(m[row + 1].times(y)).plus(m[row + 2])
}

/// The point that the matrix takes `(x, y)` to: the first two rows over the third.
pub open spec fn transformed<A: Arith>(x: A, y: A, m: Seq<A>) -> (A, A) {
    let w = row_at(m, 6, x, y);
    (row_at(m, 0, x, y).over(w), row_at(m, 3, x, y).over(w))
}

fn minor_of<S: Scalar>(m: &[S; 9], a: usize, b: usize, c: usize, d: usize) -> (r: S)
    requires
        a < 9,
        b < 9,
        c < 9,
        d < 9,
    ensures
        r == minor(m@, a as int, b as int, c as int, d as int),
{
    m[a].mul(m[b]).sub(m[c].mul(m[d]))
}

/// The determinant of a matrix.
pub fn determinant3x3<S: Scalar>(m: &[S; 9]) -> (r: S)
    ensures
        r == determinant(m@),
{
    m[0].mul(minor_of(m, 4, 8, 5, 7)).sub(m[1].mul(minor_of(m, 3, 8, 5, 6))).add(
        m[2].mul(minor_of(m, 3, 7, 4, 6)),
    )
}

/// The adjugate of a matrix.
pub fn adjugate3x3<S: Scalar>(m: &[S; 9]) -> (r: [S; 9])
    ensures
        r@ == adjugate(m@),
{
    let r = [
        minor_of(m, 4, 8, 5, 7),
        minor_of(m, 2, 7, 1, 8),
        minor_of(m, 1, 5, 2, 4),
        minor_of(m, 5, 6, 3, 8),
        minor_of(m, 0, 8, 2, 6),
        minor_of(m, 2, 3, 0, 5),
        minor_of(m, 3, 7, 4, 6),
        minor_of(m, 1, 6, 0, 7),
        minor_of(m, 0, 4, 1, 3),
    ];
    assert(r@ =~= adjugate(m@));
    r
}

/// The inverse of a perspective matrix, or an error where its determinant is 0.
pub fn inverse_perspective_matrix<S: Scalar>(m: &[S; 9]) -> (r: Result<[S; 9], ImageError>)
    ensures
        r is Err <==> singular(m@),
        r matches Err(e) ==> e == ImageError::CannotComputeDeterminant,
        r matches Ok(inv_m) ==> inv_m@ == inverse(m@),
{
    let det = determinant3x3(m);
    if det.equals(S::from_index(0)) {
        return Err(ImageError::CannotComputeDeterminant);
    }
    let adj = adjugate3x3(m);
    let inv_det = S::from_index(1).div(det);
    let mut inv_m: [S; 9] = [S::from_index(0);9];
    for i in 0..9
        invariant
            adj@ == adjugate(m@),
            inv_det == unit::<S>().over(determinant(m@)),
            forall|j: int| 0 <= j < i ==> inv_m@[j] == adj@[j].times(inv_det),
    {
        inv_m[i] = adj[i].mul(inv_det);
    }
    assert(inv_m@ =~= inverse(m@));
    Ok(inv_m)
}

/// Applies a perspective matrix to a point.
pub fn transform_point<S: Scalar>(x: S, y: S, m: &[S; 9]) -> (r: (S, S))
    ensures
        r == transformed(x, y, m@),
{
    let w = m[6].mul(x).add(m[7].mul(y)).add(m[8]);
    let x_out = m[0].mul(x).add(m[1].mul(y)).add(m[2]).div(w);
    let y_out = m[3].mul(x).add(m[4].mul(y)).add(m[5]).div(w);
    (x_out, y_out)
}

/// The matrix product of `a` and `b`.
pub open spec fn product<A: Arith>(a: Seq<A>, b: Seq<A>) -> Seq<A> {
    Seq::new(
        9,
        |i: int|
            {
                let (row, column) = (3 * (i / 3), i % 3);
                a[row].times(b[column]).plus(a[row + 1].times(b[column + 3])).plus(
                    a[row + 2].times(b[column + 6]),
                )
            },
    )
}

/// The matrix with `d` on the diagonal and 0 elsewhere.
pub open spec fn diagonal<A: Arith>(d: A) -> Seq<A> {
    Seq::new(9, |i: int| if i % 4 == 0 { d } else { nought() })
}

/// Three entries of a matrix, from `first` on in steps of `step`: a row (1) or a
/// column (3).
pub open spec fn line(m: Seq<Exact>, first: int, step: int) -> (real, real, real) {
    (m[first].value, m[first + step].value, m[first + 2 * step].value)
}

pub proof fn lemma_determinant_is_volume(m: Seq<Exact>)
    requires
        m.len() == 9,
    ensures
        determinant(m).value == volume(line(m, 0, 1), line(m, 3, 1), line(m, 6, 1)),
        determinant(m).value == volume(line(m, 0, 3), line(m, 1, 3), line(m, 2, 3)),
{
    lemma_volume_transposes(line(m, 0, 1), line(m, 3, 1), line(m, 6, 1));
    lemma_cofactor(m[1].value, m[3].value, m[8].value, m[5].value, m[6].value);
    lemma_cofactor(m[1].value, m[5].value, m[6].value, m[3].value, m[8].value);
}

/// In exact arithmetic a matrix times its adjugate, on either side, is the
/// determinant on the diagonal and 0 elsewhere.
pub proof fn adjugate_law(m: Seq<Exact>)
    requires
        m.len() == 9,
    ensures
        product(m, adjugate(m)) == diagonal(determinant(m)),
        product(adjugate(m), m) == diagonal(determinant(m)),
{
    lemma_adjugate_right(m);
    lemma_adjugate_left(m);
}

proof fn lemma_adjugate_right(m: Seq<Exact>)
    requires
        m.len() == 9,
    ensures
        product(m, adjugate(m)) == diagonal(determinant(m)),
{
    let (a, b, c) = (line(m, 0, 1), line(m, 3, 1), line(m, 6, 1));
    let p = product(m, adjugate(m));
    let d = determinant(m);
    lemma_determinant_is_volume(m);
    lemma_vector_product_order(a, b);
    lemma_vector_product_order(b, c);
    lemma_vector_product_order(c, a);
    lemma_volume_turns(a, b, c);
    lemma_volume_turns(b, c, a);
    lemma_volume_flat(a, b);
    lemma_volume_flat(a, c);
    lemma_volume_flat(b, a);
    lemma_volume_flat(b, c);
    lemma_volume_flat(c, a);
    lemma_volume_flat(c, b);
    assert(p[0].value == volume(a, b, c));
    assert(p[1].value == volume(a, c, a));
    assert(p[2].value == volume(a, a, b));
    assert(p[3].value == volume(b, b, c));
    assert(p[4].value == volume(b, c, a));
    assert(p[5].value == volume(b, a, b));
    assert(p[6].value == volume(c, b, c));
    assert(p[7].value == volume(c, c, a));
    assert(p[8].value == volume(c, a, b));
    assert(p =~~= diagonal(d));
}

proof fn lemma_adjugate_left(m: Seq<Exact>)
    requires
        m.len() == 9,
    ensures
        product(adjugate(m), m) == diagonal(determinant(m)),
{
    let (a, b, c) = (line(m, 0, 3), line(m, 1, 3), line(m, 2, 3));
    let p = product(adjugate(m), m);
    let d = determinant(m);
    lemma_determinant_is_volume(m);
    lemma_vector_product_order(a, b);
    lemma_vector_product_order(b, c);
    lemma_vector_product_order(c, a);
    lemma_volume_turns(a, b, c);
    lemma_volume_turns(b, c, a);
    lemma_volume_flat(a, b);
    lemma_volume_flat(a, c);
    lemma_volume_flat(b, a);
    lemma_volume_flat(b, c);
    lemma_volume_flat(c, a);
    lemma_volume_flat(c, b);
    lemma_left_row(m, 0, b, c);
    lemma_left_row(m, 3, c, a);
    lemma_left_row(m, 6, a, b);
    assert(p[0].value == volume(a, b, c));
    assert(p[1].value == volume(b, b, c));
    assert(p[2].value == volume(c, b, c));
    assert(p[3].value == volume(a, c, a));
    assert(p[4].value == volume(b, c, a));
    assert(p[5].value == volume(c, c, a));
    assert(p[6].value == volume(a, a, b));
    assert(p[7].value == volume(b, a, b));
    assert(p[8].value == volume(c, a, b));
    assert(p =~~= diagonal(d));
}

/// The row of the adjugate that starts at `row`, which is the vector product of `v`
/// and `w`, applied to the columns of the matrix.
proof fn lemma_left_row(m: Seq<Exact>, row: int, v: (real, real, real), w: (real, real, real))
    requires
        m.len() == 9,
        row == 0 || row == 3 || row == 6,
        line(adjugate(m), row, 1) == (
            times(v.1, w.2) - times(v.2, w.1),
            times(v.2, w.0) - times(v.0, w.2),
            times(v.0, w.1) - times(v.1, w.0),
        ),
    ensures
        product(adjugate(m), m)[row].value == volume(line(m, 0, 3), v, w),
        product(adjugate(m), m)[row + 1].value == volume(line(m, 1, 3), v, w),
        product(adjugate(m), m)[row + 2].value == volume(line(m, 2, 3), v, w),
{
    let n = line(adjugate(m), row, 1);
    let (a, b, c) = (line(m, 0, 3), line(m, 1, 3), line(m, 2, 3));
    lemma_commutes(n.0, a.0);
    lemma_commutes(n.1, a.1);
    lemma_commutes(n.2, a.2);
    lemma_commutes(n.0, b.0);
    lemma_commutes(n.1, b.1);
    lemma_commutes(n.2, b.2);
    lemma_commutes(n.0, c.0);
    lemma_commutes(n.1, c.1);
    lemma_commutes(n.2, c.2);
}

/// In exact arithmetic a matrix that is not singular times its inverse, on either
/// side, is the identity.
pub proof fn inverse_law(m: Seq<Exact>)
    requires
        m.len() == 9,
        !singular(m),
    ensures
        product(m, inverse(m)) == diagonal(unit::<Exact>()),
        product(inverse(m), m) == diagonal(unit::<Exact>()),
{
    let d = determinant(m).value;
    let r = over(1 as real, d);
    lemma_reciprocal(1 as real, d);
    lemma_constants(r);
    adjugate_law(m);
    let left = product(inverse(m), m);
    let right = product(m, inverse(m));
    let i = diagonal(unit::<Exact>());
    assert forall|k: int| 0 <= k < 9 implies (#[trigger] left[k]).value == i[k].value by {
        let (row, column) = (3 * (k / 3), k % 3);
        lemma_factor_out(r, line(adjugate(m), row, 1), line(m, column, 3));
        assert(product(adjugate(m), m)[k] == diagonal(determinant(m))[k]);
    }
    assert forall|k: int| 0 <= k < 9 implies (#[trigger] right[k]).value == i[k].value by {
        let (row, column) = (3 * (k / 3), k % 3);
        lemma_factor_out(r, line(adjugate(m), column, 3), line(m, row, 1));
        assert(product(m, adjugate(m))[k] == diagonal(determinant(m))[k]);
    }
    assert(left =~~= i);
    assert(right =~~= i);
}

/// In exact arithmetic the inverse of a matrix takes the image of a point back to
/// the point, and so not to infinity, wherever the matrix does not take the point there.
pub proof fn round_trip_law(x: Exact, y: Exact, m: Seq<Exact>)
    requires
        m.len() == 9,
        !singular(m),
        !row_at(m, 6, x, y).same(nought()),
    ensures
        transformed(transformed(x, y, m).0, transformed(x, y, m).1, inverse(m)) == (x, y),
        !row_at(inverse(m), 6, transformed(x, y, m).0, transformed(x, y, m).1).same(nought()),
{
    let n = inverse(m);
    let (u, v) = transformed(x, y, m);
    let (a, b, w) = (row_at(m, 0, x, y), row_at(m, 3, x, y), row_at(m, 6, x, y));
    let r = over(1 as real, w.value);
    inverse_law(m);
    lemma_reciprocal(a.value, w.value);
    lemma_reciprocal(b.value, w.value);
    lemma_reciprocal(w.value, w.value);
    assert(over(w.value, w.value) == 1 as real) by {
        lemma_constants(w.value);
        lemma_commutes(w.value, 1 as real);
        lemma_product_over(1 as real, w.value);
    }
    assert forall|row: int| row == 0 || row == 3 || row == 6 implies #[trigger] row_at(
        n,
        row,
        u,
        v,
    ).value == times(
        r,
        times(n[row].value, a.value) + times(n[row + 1].value, b.value) + times(
            n[row + 2].value,
            w.value,
        ),
    ) by {
        lemma_factor_out(r, (a.value, b.value, w.value), line(n, row, 1));
        lemma_constants(n[row + 2].value);
    }
    lemma_rows_compose(
        line(n, 0, 1),
        line(m, 0, 1),
        line(m, 3, 1),
        line(m, 6, 1),
        x.value,
        y.value,
    );
    lemma_rows_compose(
        line(n, 3, 1),
        line(m, 0, 1),
        line(m, 3, 1),
        line(m, 6, 1),
        x.value,
        y.value,
    );
    lemma_rows_compose(
        line(n, 6, 1),
        line(m, 0, 1),
        line(m, 3, 1),
        line(m, 6, 1),
        x.value,
        y.value,
    );
    let i = diagonal(unit::<Exact>());
    let p = product(n, m);
    assert(p[0] == i[0] && p[1] == i[1] && p[2] == i[2]);
    assert(p[3] == i[3] && p[4] == i[4] && p[5] == i[5]);
    assert(p[6] == i[6] && p[7] == i[7] && p[8] == i[8]);
    lemma_constants(x.value);
    lemma_constants(y.value);
    lemma_constants(r);
    lemma_commutes(x.value, 0 as real);
    lemma_commutes(x.value, 1 as real);
    lemma_commutes(y.value, 0 as real);
    lemma_commutes(y.value, 1 as real);
    lemma_commutes(r, x.value);
    lemma_commutes(r, y.value);
    lemma_product_over(x.value, r);
    lemma_product_over(y.value, r);
    assert(row_at(n, 0, u, v).value == times(x.value, r));
    assert(row_at(n, 3, u, v).value == times(y.value, r));
    assert(row_at(n, 6, u, v).value == r);
}

proof fn lemma_adjugate_vanishes(m: Seq<Exact>, n: Seq<Exact>, column: int)
    requires
        m.len() == 9,
        n.len() == 9,
        singular(m),
        product(n, m) == diagonal(unit::<Exact>()),
        0 <= column < 3,
    ensures
        adjugate(m)[6 + column].value == 0 as real,
{
    let q = adjugate(m);
    let (p, i) = (product(n, m), diagonal(unit::<Exact>()));
    let (z, d) = (product(m, q), diagonal(determinant(m)));
    adjugate_law(m);
    assert(p[6] == i[6] && p[7] == i[7] && p[8] == i[8]);
    assert(z[column] == d[column] && z[3 + column] == d[3 + column] && z[6 + column] == d[6
        + column]);
    lemma_sums_compose(
        line(n, 6, 1),
        line(m, 0, 1),
        line(m, 3, 1),
        line(m, 6, 1),
        line(q, column, 3),
    );
    lemma_constants(n[6].value);
    lemma_constants(n[7].value);
    lemma_constants(n[8].value);
    lemma_constants(q[column].value);
    lemma_constants(q[3 + column].value);
    lemma_constants(q[6 + column].value);
    lemma_commutes(q[column].value, 0 as real);
    lemma_commutes(q[3 + column].value, 0 as real);
    lemma_commutes(q[6 + column].value, 1 as real);
}

/// In exact arithmetic a singular matrix has no inverse: no matrix times it is the
/// identity.
pub proof fn singular_law(m: Seq<Exact>, n: Seq<Exact>)
    requires
        m.len() == 9,
        n.len() == 9,
        singular(m),
    ensures
        product(n, m) != diagonal(unit::<Exact>()),
{
    let (p, i) = (product(n, m), diagonal(unit::<Exact>()));
    if p == i {
        assert(p[0] == i[0] && p[1] == i[1] && p[3] == i[3] && p[4] == i[4]);
        lemma_adjugate_vanishes(m, n, 0);
        lemma_adjugate_vanishes(m, n, 1);
        lemma_adjugate_vanishes(m, n, 2);
        lemma_vector_product_order(line(m, 0, 3), line(m, 1, 3));
        lemma_binet_cauchy(line(n, 0, 1), line(n, 3, 1), line(m, 0, 3), line(m, 1, 3));
        let c = cross(line(n, 0, 1), line(n, 3, 1));
        lemma_constants(c.0);
        lemma_constants(c.1);
        lemma_constants(c.2);
        lemma_constants(1 as real);
        lemma_constants(0 as real);
    }
}

} // verus!
