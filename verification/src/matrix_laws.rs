//! The algebra of perspective matrices in exact arithmetic: products, determinants,
//! adjugates, inverses, and the maps of points that matrices stand for.

use crate::algebra::{
    cross, dot, lemma_associates, lemma_binet_cauchy, lemma_common_factor, lemma_commutes,
    lemma_constants, lemma_cross_twice, lemma_distributes, lemma_dot_commutes, lemma_factor_out,
    lemma_quotient, lemma_reciprocal, lemma_rows_compose, lemma_sums_compose, lemma_triple,
    lemma_vector_product_order, lemma_volume_exchanges, lemma_volume_flat, lemma_volume_turns,
    lemma_whole, of_int, over, times, volume, whole,
};
use crate::matrix::{
    adjugate, adjugate_law, determinant, diagonal, inverse, inverse_law,
    lemma_determinant_is_volume, line, minor, product, row_at, singular, singular_law,
    transformed,
};
use crate::scalar::{nought, unit, Arith, Exact};
use vstd::prelude::*;

verus! {

/// The matrix with each entry multiplied by `c`.
pub open spec fn scaled<A: Arith>(c: A, m: Seq<A>) -> Seq<A> {
    Seq::new(9, |i: int| c.times(m[i]))
}

/// The matrix with rows and columns exchanged.
pub open spec fn transposed<A: Arith>(m: Seq<A>) -> Seq<A> {
    Seq::new(9, |i: int| m[3 * (i % 3) + i / 3])
}

/// `r` for `s`, `s` for `r`, and any other number for itself.
pub open spec fn exchanged(i: int, r: int, s: int) -> int {
    if i == r {
        s
    } else if i == s {
        r
    } else {
        i
    }
}

/// The matrix with rows `r` and `s` exchanged.
pub open spec fn rows_exchanged<A: Arith>(m: Seq<A>, r: int, s: int) -> Seq<A> {
    Seq::new(9, |i: int| m[3 * exchanged(i / 3, r, s) + i % 3])
}

/// The matrix with columns `r` and `s` exchanged.
pub open spec fn columns_exchanged<A: Arith>(m: Seq<A>, r: int, s: int) -> Seq<A> {
    Seq::new(9, |i: int| m[3 * (i / 3) + exchanged(i % 3, r, s)])
}

proof fn lemma_product_rows(a: Seq<Exact>, b: Seq<Exact>)
    ensures
        line(product(a, b), 0, 1) == row_times(line(a, 0, 1), b),
        line(product(a, b), 3, 1) == row_times(line(a, 3, 1), b),
        line(product(a, b), 6, 1) == row_times(line(a, 6, 1), b),
{
}

/// A row times a matrix.
spec fn row_times(r: (real, real, real), b: Seq<Exact>) -> (real, real, real) {
    (dot(r, line(b, 0, 3)), dot(r, line(b, 1, 3)), dot(r, line(b, 2, 3)))
}

proof fn lemma_adjugate_lines(m: Seq<Exact>)
    requires
        m.len() == 9,
    ensures
        line(adjugate(m), 0, 3) == cross(line(m, 3, 1), line(m, 6, 1)),
        line(adjugate(m), 1, 3) == cross(line(m, 6, 1), line(m, 0, 1)),
        line(adjugate(m), 2, 3) == cross(line(m, 0, 1), line(m, 3, 1)),
        line(adjugate(m), 0, 1) == cross(line(m, 1, 3), line(m, 2, 3)),
        line(adjugate(m), 3, 1) == cross(line(m, 2, 3), line(m, 0, 3)),
        line(adjugate(m), 6, 1) == cross(line(m, 0, 3), line(m, 1, 3)),
{
    lemma_vector_product_order(line(m, 0, 1), line(m, 3, 1));
    lemma_vector_product_order(line(m, 3, 1), line(m, 6, 1));
    lemma_vector_product_order(line(m, 6, 1), line(m, 0, 1));
    lemma_vector_product_order(line(m, 0, 3), line(m, 1, 3));
    lemma_vector_product_order(line(m, 1, 3), line(m, 2, 3));
    lemma_vector_product_order(line(m, 2, 3), line(m, 0, 3));
}

/// Matrix multiplication is associative.
pub proof fn associative_law(a: Seq<Exact>, b: Seq<Exact>, c: Seq<Exact>)
    ensures
        product(product(a, b), c) == product(a, product(b, c)),
{
    let (left, right) = (product(product(a, b), c), product(a, product(b, c)));
    assert forall|i: int| 0 <= i < 9 implies (#[trigger] left[i]).value == right[i].value by {
        let (row, column) = (3 * (i / 3), i % 3);
        lemma_sums_compose(
            line(a, row, 1),
            line(b, 0, 1),
            line(b, 3, 1),
            line(b, 6, 1),
            line(c, column, 3),
        );
    }
    assert(left =~~= right);
}

/// A diagonal matrix scales: from the left, and through a product.
proof fn lemma_scaling(d: Exact, a: Seq<Exact>, m: Seq<Exact>)
    ensures
        product(diagonal(d), m) == scaled(d, m),
        product(a, scaled(d, m)) == scaled(d, product(a, m)),
{
    let left = product(diagonal(d), m);
    assert forall|i: int| 0 <= i < 9 implies (#[trigger] left[i]).value == scaled(
        d,
        m,
    )[i].value by {
        let column = i % 3;
        lemma_zero_times(m[column].value);
        lemma_zero_times(m[column + 3].value);
        lemma_zero_times(m[column + 6].value);
    }
    assert(left =~~= scaled(d, m));
    let right = product(a, scaled(d, m));
    assert forall|i: int| 0 <= i < 9 implies (#[trigger] right[i]).value == scaled(
        d,
        product(a, m),
    )[i].value by {
        let (row, column) = (3 * (i / 3), i % 3);
        let v = line(m, column, 3);
        lemma_factor_out(d.value, v, line(a, row, 1));
        lemma_commutes(d.value, v.0);
        lemma_commutes(d.value, v.1);
        lemma_commutes(d.value, v.2);
    }
    assert(right =~~= scaled(d, product(a, m)));
}

proof fn lemma_zero_times(a: real)
    ensures
        times(0 as real, a) == 0 as real,
        times(1 as real, a) == a,
{
    lemma_constants(a);
    lemma_commutes(0 as real, a);
    lemma_commutes(1 as real, a);
}

/// The identity matrix times a matrix, on either side, is the matrix.
pub proof fn identity_product_law(m: Seq<Exact>)
    requires
        m.len() == 9,
    ensures
        product(diagonal(unit::<Exact>()), m) == m,
        product(m, diagonal(unit::<Exact>())) == m,
{
    let i = diagonal(unit::<Exact>());
    assert forall|k: int| 0 <= k < 9 implies (#[trigger] product(i, m)[k]).value == m[k].value by {
        let column = k % 3;
        lemma_zero_times(m[column].value);
        lemma_zero_times(m[column + 3].value);
        lemma_zero_times(m[column + 6].value);
    }
    assert forall|k: int| 0 <= k < 9 implies (#[trigger] product(m, i)[k]).value == m[k].value by {
        let row = 3 * (k / 3);
        lemma_constants(m[row].value);
        lemma_constants(m[row + 1].value);
        lemma_constants(m[row + 2].value);
    }
    assert(product(i, m) =~~= m);
    assert(product(m, i) =~~= m);
}

/// The adjugate of a product is the product of the adjugates in reverse.
pub proof fn adjugate_product_law(a: Seq<Exact>, b: Seq<Exact>)
    requires
        a.len() == 9,
        b.len() == 9,
    ensures
        adjugate(product(a, b)) == product(adjugate(b), adjugate(a)),
{
    let p = product(a, b);
    let (left, right) = (adjugate(p), product(adjugate(b), adjugate(a)));
    lemma_product_rows(a, b);
    lemma_product_rows(adjugate(b), adjugate(a));
    lemma_adjugate_lines(a);
    lemma_adjugate_lines(b);
    lemma_adjugate_lines(p);
    lemma_adjugate_column(b, line(a, 3, 1), line(a, 6, 1));
    lemma_adjugate_column(b, line(a, 6, 1), line(a, 0, 1));
    lemma_adjugate_column(b, line(a, 0, 1), line(a, 3, 1));
    assert(left.len() == 9 && right.len() == 9);
    assert(left[0].value == right[0].value && left[3].value == right[3].value && left[6].value
        == right[6].value);
    assert(left[1].value == right[1].value && left[4].value == right[4].value && left[7].value
        == right[7].value);
    assert(left[2].value == right[2].value && left[5].value == right[5].value && left[8].value
        == right[8].value);
    assert(left =~~= right);
}

/// The vector product of two rows of a product is the adjugate times the vector product
/// of the rows that they come from.
proof fn lemma_adjugate_column(b: Seq<Exact>, r: (real, real, real), s: (real, real, real))
    requires
        b.len() == 9,
    ensures
        cross(row_times(r, b), row_times(s, b)) == (
            dot(line(adjugate(b), 0, 1), cross(r, s)),
            dot(line(adjugate(b), 3, 1), cross(r, s)),
            dot(line(adjugate(b), 6, 1), cross(r, s)),
        ),
{
    let (u, v, w) = (line(b, 0, 3), line(b, 1, 3), line(b, 2, 3));
    lemma_adjugate_lines(b);
    lemma_binet_cauchy(r, s, v, w);
    lemma_binet_cauchy(r, s, w, u);
    lemma_binet_cauchy(r, s, u, v);
    lemma_dot_commutes(cross(r, s), cross(v, w));
    lemma_dot_commutes(cross(r, s), cross(w, u));
    lemma_dot_commutes(cross(r, s), cross(u, v));
}

/// The determinant of a product is the product of the determinants, and that of the
/// identity is 1.
pub proof fn determinant_product_law(a: Seq<Exact>, b: Seq<Exact>)
    requires
        a.len() == 9,
        b.len() == 9,
    ensures
        determinant(product(a, b)) == determinant(a).times(determinant(b)),
        determinant(diagonal(unit::<Exact>())) == unit::<Exact>(),
{
    let p = product(a, b);
    let (da, db) = (determinant(a), determinant(b));
    adjugate_law(a);
    adjugate_law(b);
    adjugate_law(p);
    adjugate_product_law(a, b);
    associative_law(a, b, product(adjugate(b), adjugate(a)));
    associative_law(b, adjugate(b), adjugate(a));
    lemma_scaling(db, a, adjugate(a));
    assert(product(p, adjugate(p)) == scaled(db, diagonal(da)));
    assert(diagonal(determinant(p))[0] == scaled(db, diagonal(da))[0]);
    lemma_commutes(da.value, db.value);
    lemma_identity_determinant();
}

proof fn lemma_identity_determinant()
    ensures
        determinant(diagonal(unit::<Exact>())) == unit::<Exact>(),
{
    lemma_constants(0 as real);
    lemma_constants(1 as real);
    lemma_commutes(0 as real, 1 as real);
}

/// The adjugate of the adjugate is the matrix times its determinant, and the
/// determinant of the adjugate is the square of the determinant.
pub proof fn adjugate_twice_law(m: Seq<Exact>)
    requires
        m.len() == 9,
    ensures
        adjugate(adjugate(m)) == scaled(determinant(m), m),
        determinant(adjugate(m)) == determinant(m).times(determinant(m)),
{
    let q = adjugate(m);
    let d = determinant(m);
    let (left, right) = (adjugate(q), scaled(d, m));
    lemma_adjugate_lines(m);
    lemma_adjugate_lines(q);
    lemma_determinant_is_volume(m);
    let (a, b, c) = (line(m, 0, 1), line(m, 3, 1), line(m, 6, 1));
    lemma_volume_turns(a, b, c);
    lemma_volume_turns(b, c, a);
    lemma_cross_of_crosses(a, b, c);
    lemma_cross_of_crosses(b, c, a);
    lemma_cross_of_crosses(c, a, b);
    assert(left[0].value == right[0].value && left[1].value == right[1].value && left[2].value
        == right[2].value);
    assert(left[3].value == right[3].value && left[4].value == right[4].value && left[5].value
        == right[5].value);
    assert(left[6].value == right[6].value && left[7].value == right[7].value && left[8].value
        == right[8].value);
    assert(left =~~= right);
    adjugate_law(m);
    adjugate_law(q);
    lemma_scaling(d, q, m);
    assert(product(q, left) == scaled(d, diagonal(d)));
    assert(diagonal(determinant(q))[0] == scaled(d, diagonal(d))[0]);
}

/// The vector product of two vector products that share the vector `u` is `u` times
/// the volume of the three vectors.
proof fn lemma_cross_of_crosses(u: (real, real, real), v: (real, real, real), w: (real, real, real))
    ensures
        cross(cross(w, u), cross(u, v)) == (
            times(volume(u, v, w), u.0),
            times(volume(u, v, w), u.1),
            times(volume(u, v, w), u.2),
        ),
{
    let x = cross(w, u);
    lemma_cross_twice(x, u, v);
    lemma_dot_commutes(x, u);
    lemma_volume_flat(u, w);
    lemma_dot_commutes(x, v);
    lemma_volume_turns(u, v, w);
    lemma_constants(v.0);
    lemma_constants(v.1);
    lemma_constants(v.2);
    lemma_commutes(volume(u, v, w), u.0);
    lemma_commutes(volume(u, v, w), u.1);
    lemma_commutes(volume(u, v, w), u.2);
}

/// The matrix with the entries of column `column` replaced by those of `v`.
pub open spec fn column_replaced<A: Arith>(m: Seq<A>, column: int, v: Seq<A>) -> Seq<A> {
    Seq::new(9, |i: int| if i % 3 == column { v[i / 3] } else { m[i] })
}

/// A row of the adjugate, applied to any vector, is the determinant of the matrix with
/// the vector in the place of the column of that number. So each entry of the adjugate is
/// fixed, also where the matrix is singular.
pub proof fn cofactor_law(m: Seq<Exact>, column: int, v: Seq<Exact>)
    requires
        m.len() == 9,
        v.len() == 3,
        0 <= column < 3,
    ensures
        adjugate(m).len() == 9,
        adjugate(m)[3 * column].times(v[0]).plus(adjugate(m)[3 * column + 1].times(v[1])).plus(
            adjugate(m)[3 * column + 2].times(v[2]),
        ) == determinant(column_replaced(m, column, v)),
{
    let r = column_replaced(m, column, v);
    let (a, b, c) = (line(r, 0, 3), line(r, 1, 3), line(r, 2, 3));
    let w = line(v, 0, 1);
    lemma_adjugate_lines(m);
    lemma_determinant_is_volume(r);
    lemma_volume_turns(a, b, c);
    lemma_volume_turns(b, c, a);
    lemma_dot_commutes(line(adjugate(m), 3 * column, 1), w);
}

/// Inverting twice gives the matrix back.
pub proof fn inverse_twice_law(m: Seq<Exact>)
    requires
        m.len() == 9,
        !singular(m),
    ensures
        !singular(inverse(m)),
        inverse(inverse(m)) == m,
{
    let n = inverse(m);
    inverse_law(m);
    if singular(n) {
        singular_law(n, m);
    }
    inverse_law(n);
    associative_law(inverse(n), n, m);
    identity_product_law(m);
    identity_product_law(inverse(n));
}

/// The inverse of a matrix of integers whose determinant is 1 or -1 is a matrix of
/// integers.
pub proof fn integer_inverse_law(m: Seq<Exact>)
    requires
        m.len() == 9,
        forall|i: int| 0 <= i < 9 ==> whole(#[trigger] m[i].value),
        determinant(m).value == 1 as real || determinant(m).value == -(1 as real),
    ensures
        !singular(m),
        forall|i: int| 0 <= i < 9 ==> whole(#[trigger] inverse(m)[i].value),
{
    let d = determinant(m).value;
    let r = over(1 as real, d);
    lemma_reciprocal(1 as real, d);
    lemma_constants(1 as real);
    lemma_constants(r);
    lemma_distributes(r, 0 as real, 1 as real);
    assert(r == of_int(1) || r == of_int(-1));
    lemma_whole_minor(m, 4, 8, 5, 7);
    lemma_whole_minor(m, 2, 7, 1, 8);
    lemma_whole_minor(m, 1, 5, 2, 4);
    lemma_whole_minor(m, 5, 6, 3, 8);
    lemma_whole_minor(m, 0, 8, 2, 6);
    lemma_whole_minor(m, 2, 3, 0, 5);
    lemma_whole_minor(m, 3, 7, 4, 6);
    lemma_whole_minor(m, 1, 6, 0, 7);
    lemma_whole_minor(m, 0, 4, 1, 3);
    assert forall|i: int| 0 <= i < 9 implies whole(#[trigger] inverse(m)[i].value) by {
        assert(whole(adjugate(m)[i].value));
        lemma_whole(adjugate(m)[i].value, r);
    }
}

proof fn lemma_whole_minor(m: Seq<Exact>, a: int, b: int, c: int, d: int)
    requires
        m.len() == 9,
        forall|i: int| 0 <= i < 9 ==> whole(#[trigger] m[i].value),
        0 <= a < 9,
        0 <= b < 9,
        0 <= c < 9,
        0 <= d < 9,
    ensures
        whole(minor(m, a, b, c, d).value),
{
    lemma_whole(m[a].value, m[b].value);
    lemma_whole(m[c].value, m[d].value);
    lemma_whole(times(m[a].value, m[b].value), times(m[c].value, m[d].value));
}

/// Transposition keeps the determinant.
pub proof fn transposed_determinant_law(m: Seq<Exact>)
    requires
        m.len() == 9,
    ensures
        determinant(transposed(m)) == determinant(m),
{
    let t = transposed(m);
    lemma_determinant_is_volume(m);
    lemma_determinant_is_volume(t);
    assert(line(t, 0, 1) == line(m, 0, 3));
    assert(line(t, 3, 1) == line(m, 1, 3));
    assert(line(t, 6, 1) == line(m, 2, 3));
}

/// Exchanging two rows, or two columns, changes the sign of the determinant.
pub proof fn exchanged_determinant_law(m: Seq<Exact>, r: int, s: int)
    requires
        m.len() == 9,
        0 <= r < 3,
        0 <= s < 3,
        r != s,
    ensures
        determinant(rows_exchanged(m, r, s)).value == -determinant(m).value,
        determinant(columns_exchanged(m, r, s)).value == -determinant(m).value,
{
    let p = rows_exchanged(m, r, s);
    let q = columns_exchanged(m, r, s);
    lemma_determinant_is_volume(m);
    lemma_determinant_is_volume(p);
    lemma_determinant_is_volume(q);
    assert(line(p, 0, 1) == line(m, 3 * exchanged(0, r, s), 1));
    assert(line(p, 3, 1) == line(m, 3 * exchanged(1, r, s), 1));
    assert(line(p, 6, 1) == line(m, 3 * exchanged(2, r, s), 1));
    assert(line(q, 0, 3) == line(m, exchanged(0, r, s), 3));
    assert(line(q, 1, 3) == line(m, exchanged(1, r, s), 3));
    assert(line(q, 2, 3) == line(m, exchanged(2, r, s), 3));
    lemma_volume_exchanges(line(m, 0, 1), line(m, 3, 1), line(m, 6, 1));
    lemma_volume_exchanges(line(m, 0, 3), line(m, 1, 3), line(m, 2, 3));
}

/// A matrix with two equal rows, or two equal columns, is singular.
pub proof fn equal_lines_law(m: Seq<Exact>, r: int, s: int)
    requires
        m.len() == 9,
        0 <= r < 3,
        0 <= s < 3,
        r != s,
        line(m, 3 * r, 1) == line(m, 3 * s, 1) || line(m, r, 3) == line(m, s, 3),
    ensures
        determinant(m) == nought::<Exact>(),
        singular(m),
{
    let (a, b, c) = (line(m, 0, 1), line(m, 3, 1), line(m, 6, 1));
    let (d, e, f) = (line(m, 0, 3), line(m, 1, 3), line(m, 2, 3));
    lemma_determinant_is_volume(m);
    lemma_volume_exchanges(a, b, c);
    lemma_volume_exchanges(d, e, f);
}

/// A matrix and a multiple of it take points to the same points, where the divisor is
/// not 0.
pub proof fn scale_law(x: Exact, y: Exact, m: Seq<Exact>, c: Exact)
    requires
        m.len() == 9,
        !c.same(nought()),
        !row_at(m, 6, x, y).same(nought()),
    ensures
        !row_at(scaled(c, m), 6, x, y).same(nought()),
        transformed(x, y, scaled(c, m)) == transformed(x, y, m),
{
    lemma_scaled_row(x, y, m, c, 0);
    lemma_scaled_row(x, y, m, c, 3);
    lemma_scaled_row(x, y, m, c, 6);
    let w = row_at(m, 6, x, y).value;
    lemma_common_factor(c.value, row_at(m, 0, x, y).value, w);
    lemma_common_factor(c.value, row_at(m, 3, x, y).value, w);
}

proof fn lemma_scaled_row(x: Exact, y: Exact, m: Seq<Exact>, c: Exact, row: int)
    requires
        0 <= row < 7,
    ensures
        row_at(scaled(c, m), row, x, y).value == times(c.value, row_at(m, row, x, y).value),
{
    let (p, q) = (times(m[row].value, x.value), times(m[row + 1].value, y.value));
    lemma_distributes(c.value, p + q, m[row + 2].value);
    lemma_distributes(c.value, p, q);
    lemma_associates(c.value, m[row].value, x.value);
    lemma_associates(c.value, m[row + 1].value, y.value);
}

/// The identity matrix keeps every point.
pub proof fn identity_point_law(x: Exact, y: Exact)
    ensures
        row_at(diagonal(unit::<Exact>()), 6, x, y) == unit::<Exact>(),
        transformed(x, y, diagonal(unit::<Exact>())) == (x, y),
{
    lemma_zero_times(x.value);
    lemma_zero_times(y.value);
    lemma_constants(x.value);
    lemma_constants(y.value);
}

/// Taking a point through one matrix and then through another is taking it through
/// their product, where neither divisor is 0.
pub proof fn composition_law(x: Exact, y: Exact, a: Seq<Exact>, b: Seq<Exact>)
    requires
        a.len() == 9,
        b.len() == 9,
        !row_at(a, 6, x, y).same(nought()),
        !row_at(b, 6, transformed(x, y, a).0, transformed(x, y, a).1).same(nought()),
    ensures
        !row_at(product(b, a), 6, x, y).same(nought()),
        transformed(transformed(x, y, a).0, transformed(x, y, a).1, b) == transformed(
            x,
            y,
            product(b, a),
        ),
{
    let (u, v) = transformed(x, y, a);
    let w = row_at(a, 6, x, y).value;
    lemma_composed_row(x, y, a, b, 0);
    lemma_composed_row(x, y, a, b, 3);
    lemma_composed_row(x, y, a, b, 6);
    let z = row_at(b, 6, u, v).value;
    lemma_common_factor(w, row_at(b, 0, u, v).value, z);
    lemma_common_factor(w, row_at(b, 3, u, v).value, z);
}

/// A row of a product at a point: the divisor at the point times the row at its image.
proof fn lemma_composed_row(x: Exact, y: Exact, a: Seq<Exact>, b: Seq<Exact>, row: int)
    requires
        !row_at(a, 6, x, y).same(nought()),
        row == 0 || row == 3 || row == 6,
    ensures
        row_at(product(b, a), row, x, y).value == times(
            row_at(a, 6, x, y).value,
            row_at(b, row, transformed(x, y, a).0, transformed(x, y, a).1).value,
        ),
{
    let (p, q, w) = (
        row_at(a, 0, x, y).value,
        row_at(a, 3, x, y).value,
        row_at(a, 6, x, y).value,
    );
    let (u, v) = transformed(x, y, a);
    let n = line(b, row, 1);
    lemma_rows_compose(n, line(a, 0, 1), line(a, 3, 1), line(a, 6, 1), x.value, y.value);
    lemma_quotient(p, w);
    lemma_quotient(q, w);
    lemma_distributes(w, times(n.0, u.value) + times(n.1, v.value), n.2);
    lemma_distributes(w, times(n.0, u.value), times(n.1, v.value));
    lemma_triple(w, n.0, u.value);
    lemma_triple(w, n.1, v.value);
    lemma_commutes(u.value, w);
    lemma_commutes(v.value, w);
    lemma_commutes(w, n.2);
}

} // verus!
