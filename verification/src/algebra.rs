//! Products and quotients of real numbers, kept opaque so that the algebra that the
//! laws need is done by the lemmas here.

use vstd::prelude::*;

verus! {

/// `a * b`.
#[verifier::opaque]
pub open spec fn times(a: real, b: real) -> real {
    a * b
}

/// `a / b`.
#[verifier::opaque]
pub open spec fn over(a: real, b: real) -> real {
    a / b
}

pub proof fn lemma_product(a: real, b: real)
    ensures
        times(a, b) == a * b,
{
    reveal(times);
}

pub proof fn lemma_commutes(a: real, b: real)
    ensures
        times(a, b) == times(b, a),
{
    reveal(times);
    assert(a * b == b * a) by (nonlinear_arith);
}

pub proof fn lemma_associates(a: real, b: real, c: real)
    ensures
        times(times(a, b), c) == times(a, times(b, c)),
{
    reveal(times);
    assert((a * b) * c == a * (b * c)) by (nonlinear_arith);
}

pub proof fn lemma_distributes(a: real, b: real, c: real)
    ensures
        times(a, b + c) == times(a, b) + times(a, c),
        times(a, b - c) == times(a, b) - times(a, c),
{
    reveal(times);
    assert(a * (b + c) == a * b + a * c) by (nonlinear_arith);
    assert(a * (b - c) == a * b - a * c) by (nonlinear_arith);
}

pub proof fn lemma_constants(a: real)
    ensures
        times(a, 0 as real) == 0 as real,
        times(a, 1 as real) == a,
        over(a, 1 as real) == a,
{
    reveal(times);
    reveal(over);
}

pub proof fn lemma_quotient(a: real, b: real)
    requires
        b != 0 as real,
    ensures
        times(over(a, b), b) == a,
{
    reveal(times);
    reveal(over);
    assert((a / b) * b == a) by (nonlinear_arith)
        requires
            b != 0 as real,
    ;
}

/// `a * b * c`.
pub open spec fn triple(a: real, b: real, c: real) -> real {
    times(a, times(b, c))
}

/// A product of three factors does not depend on their order.
pub proof fn lemma_triple(a: real, b: real, c: real)
    ensures
        triple(a, b, c) == triple(a, c, b),
        triple(a, b, c) == triple(b, a, c),
        triple(a, b, c) == triple(b, c, a),
        triple(a, b, c) == triple(c, a, b),
        triple(a, b, c) == triple(c, b, a),
{
    lemma_commutes(a, b);
    lemma_commutes(a, c);
    lemma_commutes(b, c);
    lemma_associates(a, b, c);
    lemma_associates(b, a, c);
    lemma_commutes(times(a, b), c);
}

pub proof fn lemma_cofactor(a: real, b: real, c: real, d: real, e: real)
    ensures
        times(a, times(b, c) - times(d, e)) == triple(a, b, c) - triple(a, d, e),
{
    lemma_distributes(a, times(b, c), times(d, e));
}

/// The scalar product of two vectors.
pub open spec fn dot(u: (real, real, real), v: (real, real, real)) -> real {
    times(u.0, v.0) + times(u.1, v.1) + times(u.2, v.2)
}

/// The vector product of two vectors.
pub open spec fn cross(v: (real, real, real), w: (real, real, real)) -> (real, real, real) {
    (
        times(v.1, w.2) - times(v.2, w.1),
        times(v.2, w.0) - times(v.0, w.2),
        times(v.0, w.1) - times(v.1, w.0),
    )
}

/// The scalar product of `u` and the vector product of `v` and `w`.
pub open spec fn volume(
    u: (real, real, real),
    v: (real, real, real),
    w: (real, real, real),
) -> real {
    dot(u, cross(v, w))
}

pub proof fn lemma_volume_expands(
    u: (real, real, real),
    v: (real, real, real),
    w: (real, real, real),
)
    ensures
        volume(u, v, w) == triple(u.0, v.1, w.2) - triple(u.0, v.2, w.1) + triple(u.1, v.2, w.0)
            - triple(u.1, v.0, w.2) + triple(u.2, v.0, w.1) - triple(u.2, v.1, w.0),
{
    lemma_cofactor(u.0, v.1, w.2, v.2, w.1);
    lemma_cofactor(u.1, v.2, w.0, v.0, w.2);
    lemma_cofactor(u.2, v.0, w.1, v.1, w.0);
}

pub proof fn lemma_volume_turns(
    u: (real, real, real),
    v: (real, real, real),
    w: (real, real, real),
)
    ensures
        volume(u, v, w) == volume(v, w, u),
{
    lemma_volume_expands(u, v, w);
    lemma_volume_expands(v, w, u);
    lemma_triple(u.0, v.1, w.2);
    lemma_triple(u.0, v.2, w.1);
    lemma_triple(u.1, v.2, w.0);
    lemma_triple(u.1, v.0, w.2);
    lemma_triple(u.2, v.0, w.1);
    lemma_triple(u.2, v.1, w.0);
}

pub proof fn lemma_volume_flat(u: (real, real, real), v: (real, real, real))
    ensures
        volume(u, u, v) == 0 as real,
        volume(u, v, u) == 0 as real,
{
    lemma_volume_expands(u, u, v);
    lemma_volume_turns(u, u, v);
    lemma_triple(u.0, u.1, v.2);
    lemma_triple(u.0, u.2, v.1);
    lemma_triple(u.1, u.2, v.0);
}

pub proof fn lemma_volume_transposes(
    u: (real, real, real),
    v: (real, real, real),
    w: (real, real, real),
)
    ensures
        volume(u, v, w) == volume((u.0, v.0, w.0), (u.1, v.1, w.1), (u.2, v.2, w.2)),
{
    lemma_volume_expands(u, v, w);
    lemma_volume_expands((u.0, v.0, w.0), (u.1, v.1, w.1), (u.2, v.2, w.2));
    lemma_triple(u.0, v.1, w.2);
    lemma_triple(u.0, v.2, w.1);
    lemma_triple(u.1, v.2, w.0);
    lemma_triple(u.1, v.0, w.2);
    lemma_triple(u.2, v.0, w.1);
    lemma_triple(u.2, v.1, w.0);
}

/// The products that a vector product is made of do not depend on the order of their
/// factors.
pub proof fn lemma_vector_product_order(v: (real, real, real), w: (real, real, real))
    ensures
        times(v.1, w.2) == times(w.2, v.1),
        times(v.2, w.1) == times(w.1, v.2),
        times(v.2, w.0) == times(w.0, v.2),
        times(v.0, w.2) == times(w.2, v.0),
        times(v.0, w.1) == times(w.1, v.0),
        times(v.1, w.0) == times(w.0, v.1),
{
    lemma_commutes(v.1, w.2);
    lemma_commutes(v.2, w.1);
    lemma_commutes(v.2, w.0);
    lemma_commutes(v.0, w.2);
    lemma_commutes(v.0, w.1);
    lemma_commutes(v.1, w.0);
}

/// A quotient is the product with the reciprocal.
pub proof fn lemma_reciprocal(a: real, b: real)
    requires
        b != 0 as real,
    ensures
        over(a, b) == times(a, over(1 as real, b)),
        times(over(1 as real, b), b) == 1 as real,
        over(1 as real, b) != 0 as real,
{
    let r = over(1 as real, b);
    lemma_quotient(1 as real, b);
    lemma_quotient(a, b);
    lemma_associates(over(a, b), b, r);
    lemma_commutes(b, r);
    lemma_constants(over(a, b));
    lemma_constants(b);
    lemma_commutes(0 as real, b);
}

/// A factor other than 0 divides out.
pub proof fn lemma_product_over(a: real, b: real)
    requires
        b != 0 as real,
    ensures
        over(times(a, b), b) == a,
{
    lemma_reciprocal(times(a, b), b);
    lemma_associates(a, b, over(1 as real, b));
    lemma_commutes(b, over(1 as real, b));
    lemma_constants(a);
}

/// A common factor of the left operands comes out of a sum of three products.
pub proof fn lemma_factor_out(
    r: real,
    a: (real, real, real),
    b: (real, real, real),
)
    ensures
        times(times(a.0, r), b.0) + times(times(a.1, r), b.1) + times(times(a.2, r), b.2) == times(
            r,
            times(a.0, b.0) + times(a.1, b.1) + times(a.2, b.2),
        ),
        times(b.0, times(a.0, r)) + times(b.1, times(a.1, r)) + times(b.2, times(a.2, r)) == times(
            r,
            times(b.0, a.0) + times(b.1, a.1) + times(b.2, a.2),
        ),
{
    lemma_distributes(r, times(a.0, b.0) + times(a.1, b.1), times(a.2, b.2));
    lemma_distributes(r, times(a.0, b.0), times(a.1, b.1));
    lemma_factor_moves(r, a.0, b.0);
    lemma_factor_moves(r, a.1, b.1);
    lemma_factor_moves(r, a.2, b.2);
}

proof fn lemma_factor_moves(r: real, a: real, b: real)
    ensures
        times(times(a, r), b) == times(r, times(a, b)),
        times(b, times(a, r)) == times(r, times(a, b)),
        times(a, b) == times(b, a),
{
    lemma_commutes(a, r);
    lemma_commutes(times(a, r), b);
    lemma_associates(r, a, b);
    lemma_commutes(a, b);
}

/// Applying the row `n` to the images of a vector under three rows is applying the
/// three sums of products to it.
pub proof fn lemma_rows_compose(
    n: (real, real, real),
    a: (real, real, real),
    b: (real, real, real),
    c: (real, real, real),
    x: real,
    y: real,
)
    ensures
        times(n.0, times(a.0, x) + times(a.1, y) + a.2) + times(
            n.1,
            times(b.0, x) + times(b.1, y) + b.2,
        ) + times(n.2, times(c.0, x) + times(c.1, y) + c.2) == times(
            times(n.0, a.0) + times(n.1, b.0) + times(n.2, c.0),
            x,
        ) + times(times(n.0, a.1) + times(n.1, b.1) + times(n.2, c.1), y) + (times(n.0, a.2)
            + times(n.1, b.2) + times(n.2, c.2)),
{
    lemma_row_expands(n.0, a, x, y);
    lemma_row_expands(n.1, b, x, y);
    lemma_row_expands(n.2, c, x, y);
    lemma_sum_expands(times(n.0, a.0), times(n.1, b.0), times(n.2, c.0), x);
    lemma_sum_expands(times(n.0, a.1), times(n.1, b.1), times(n.2, c.1), y);
}

proof fn lemma_row_expands(n: real, a: (real, real, real), x: real, y: real)
    ensures
        times(n, times(a.0, x) + times(a.1, y) + a.2) == times(times(n, a.0), x) + times(
            times(n, a.1),
            y,
        ) + times(n, a.2),
{
    lemma_distributes(n, times(a.0, x) + times(a.1, y), a.2);
    lemma_distributes(n, times(a.0, x), times(a.1, y));
    lemma_associates(n, a.0, x);
    lemma_associates(n, a.1, y);
}

pub proof fn lemma_sum_expands(a: real, b: real, c: real, x: real)
    ensures
        times(a + b + c, x) == times(a, x) + times(b, x) + times(c, x),
{
    lemma_commutes(a + b + c, x);
    lemma_distributes(x, a + b, c);
    lemma_distributes(x, a, b);
    lemma_commutes(a, x);
    lemma_commutes(b, x);
    lemma_commutes(c, x);
}

/// Applying the row `n` to three sums of products is applying the three sums of its
/// own products.
pub proof fn lemma_sums_compose(
    n: (real, real, real),
    a: (real, real, real),
    b: (real, real, real),
    c: (real, real, real),
    v: (real, real, real),
)
    ensures
        times(n.0, times(a.0, v.0) + times(a.1, v.1) + times(a.2, v.2)) + times(
            n.1,
            times(b.0, v.0) + times(b.1, v.1) + times(b.2, v.2),
        ) + times(n.2, times(c.0, v.0) + times(c.1, v.1) + times(c.2, v.2)) == times(
            times(n.0, a.0) + times(n.1, b.0) + times(n.2, c.0),
            v.0,
        ) + times(times(n.0, a.1) + times(n.1, b.1) + times(n.2, c.1), v.1) + times(
            times(n.0, a.2) + times(n.1, b.2) + times(n.2, c.2),
            v.2,
        ),
{
    lemma_rows_compose(
        n,
        (a.0, a.1, times(a.2, v.2)),
        (b.0, b.1, times(b.2, v.2)),
        (c.0, c.1, times(c.2, v.2)),
        v.0,
        v.1,
    );
    lemma_associates(n.0, a.2, v.2);
    lemma_associates(n.1, b.2, v.2);
    lemma_associates(n.2, c.2, v.2);
    lemma_sum_expands(times(n.0, a.2), times(n.1, b.2), times(n.2, c.2), v.2);
}

proof fn lemma_pairs_regroup(a: real, b: real, c: real, d: real)
    ensures
        times(times(a, c), times(b, d)) == times(times(a, b), times(c, d)),
{
    lemma_associates(a, c, times(b, d));
    lemma_triple(c, b, d);
    lemma_associates(a, b, times(c, d));
}

proof fn lemma_sums_multiply(a: (real, real, real), b: (real, real, real))
    ensures
        times(a.0 + a.1 + a.2, b.0 + b.1 + b.2) == times(a.0, b.0) + times(a.0, b.1) + times(
            a.0,
            b.2,
        ) + times(a.1, b.0) + times(a.1, b.1) + times(a.1, b.2) + times(a.2, b.0) + times(
            a.2,
            b.1,
        ) + times(a.2, b.2),
{
    lemma_sum_expands(a.0, a.1, a.2, b.0 + b.1 + b.2);
    lemma_distributes(a.0, b.0 + b.1, b.2);
    lemma_distributes(a.0, b.0, b.1);
    lemma_distributes(a.1, b.0 + b.1, b.2);
    lemma_distributes(a.1, b.0, b.1);
    lemma_distributes(a.2, b.0 + b.1, b.2);
    lemma_distributes(a.2, b.0, b.1);
}

proof fn lemma_differences_multiply(p: real, q: real, r: real, s: real)
    ensures
        times(p - q, r - s) == times(p, r) - times(p, s) - times(q, r) + times(q, s),
{
    lemma_distributes(p - q, r, s);
    lemma_commutes(p - q, r);
    lemma_commutes(p - q, s);
    lemma_distributes(r, p, q);
    lemma_distributes(s, p, q);
    lemma_commutes(r, p);
    lemma_commutes(r, q);
    lemma_commutes(s, p);
    lemma_commutes(s, q);
}

/// The scalar product of two vector products, in scalar products.
pub proof fn lemma_binet_cauchy(
    a: (real, real, real),
    b: (real, real, real),
    c: (real, real, real),
    d: (real, real, real),
)
    ensures
        times(dot(a, c), dot(b, d)) - times(dot(a, d), dot(b, c)) == dot(cross(a, b), cross(c, d)),
{
    lemma_sums_multiply(
        (times(a.0, c.0), times(a.1, c.1), times(a.2, c.2)),
        (times(b.0, d.0), times(b.1, d.1), times(b.2, d.2)),
    );
    lemma_sums_multiply(
        (times(a.0, d.0), times(a.1, d.1), times(a.2, d.2)),
        (times(b.0, c.0), times(b.1, c.1), times(b.2, c.2)),
    );
    lemma_vector_product_order(c, d);
    lemma_commutes(c.0, d.0);
    lemma_commutes(c.1, d.1);
    lemma_commutes(c.2, d.2);
    lemma_pairs_regroup(a.0, b.0, c.0, d.0);
    lemma_pairs_regroup(a.0, b.1, c.0, d.1);
    lemma_pairs_regroup(a.0, b.2, c.0, d.2);
    lemma_pairs_regroup(a.1, b.0, c.1, d.0);
    lemma_pairs_regroup(a.1, b.1, c.1, d.1);
    lemma_pairs_regroup(a.1, b.2, c.1, d.2);
    lemma_pairs_regroup(a.2, b.0, c.2, d.0);
    lemma_pairs_regroup(a.2, b.1, c.2, d.1);
    lemma_pairs_regroup(a.2, b.2, c.2, d.2);
    lemma_pairs_regroup(a.0, b.0, d.0, c.0);
    lemma_pairs_regroup(a.0, b.1, d.0, c.1);
    lemma_pairs_regroup(a.0, b.2, d.0, c.2);
    lemma_pairs_regroup(a.1, b.0, d.1, c.0);
    lemma_pairs_regroup(a.1, b.1, d.1, c.1);
    lemma_pairs_regroup(a.1, b.2, d.1, c.2);
    lemma_pairs_regroup(a.2, b.0, d.2, c.0);
    lemma_pairs_regroup(a.2, b.1, d.2, c.1);
    lemma_pairs_regroup(a.2, b.2, d.2, c.2);
    lemma_differences_multiply(
        times(a.1, b.2),
        times(a.2, b.1),
        times(c.1, d.2),
        times(c.2, d.1),
    );
    lemma_differences_multiply(
        times(a.2, b.0),
        times(a.0, b.2),
        times(c.2, d.0),
        times(c.0, d.2),
    );
    lemma_differences_multiply(
        times(a.0, b.1),
        times(a.1, b.0),
        times(c.0, d.1),
        times(c.1, d.0),
    );
}

pub proof fn lemma_dot_commutes(u: (real, real, real), v: (real, real, real))
    ensures
        dot(u, v) == dot(v, u),
{
    lemma_commutes(u.0, v.0);
    lemma_commutes(u.1, v.1);
    lemma_commutes(u.2, v.2);
}

proof fn lemma_cross_twice_component(
    x: (real, real, real),
    u: (real, real, real),
    v: (real, real, real),
)
    ensures
        cross(x, cross(u, v)).0 == times(u.0, dot(x, v)) - times(v.0, dot(x, u)),
{
    lemma_cofactor(x.1, u.0, v.1, u.1, v.0);
    lemma_cofactor(x.2, u.2, v.0, u.0, v.2);
    lemma_distributes(u.0, times(x.0, v.0) + times(x.1, v.1), times(x.2, v.2));
    lemma_distributes(u.0, times(x.0, v.0), times(x.1, v.1));
    lemma_distributes(v.0, times(x.0, u.0) + times(x.1, u.1), times(x.2, u.2));
    lemma_distributes(v.0, times(x.0, u.0), times(x.1, u.1));
    lemma_triple(x.0, u.0, v.0);
    lemma_triple(x.1, u.0, v.1);
    lemma_triple(x.1, u.1, v.0);
    lemma_triple(x.2, u.2, v.0);
    lemma_triple(x.2, u.0, v.2);
}

/// The vector product with a vector product, in scalar products.
pub proof fn lemma_cross_twice(
    x: (real, real, real),
    u: (real, real, real),
    v: (real, real, real),
)
    ensures
        cross(x, cross(u, v)) == (
            times(u.0, dot(x, v)) - times(v.0, dot(x, u)),
            times(u.1, dot(x, v)) - times(v.1, dot(x, u)),
            times(u.2, dot(x, v)) - times(v.2, dot(x, u)),
        ),
{
    lemma_cross_twice_component(x, u, v);
    lemma_cross_twice_component((x.1, x.2, x.0), (u.1, u.2, u.0), (v.1, v.2, v.0));
    lemma_cross_twice_component((x.2, x.0, x.1), (u.2, u.0, u.1), (v.2, v.0, v.1));
}

/// Exchanging two of its vectors changes the sign of a volume.
pub proof fn lemma_volume_exchanges(
    u: (real, real, real),
    v: (real, real, real),
    w: (real, real, real),
)
    ensures
        volume(u, w, v) == -volume(u, v, w),
        volume(v, u, w) == -volume(u, v, w),
        volume(w, v, u) == -volume(u, v, w),
{
    lemma_volume_expands(u, v, w);
    lemma_volume_expands(u, w, v);
    lemma_triple(u.0, v.1, w.2);
    lemma_triple(u.0, v.2, w.1);
    lemma_triple(u.1, v.2, w.0);
    lemma_triple(u.1, v.0, w.2);
    lemma_triple(u.2, v.0, w.1);
    lemma_triple(u.2, v.1, w.0);
    lemma_volume_turns(v, u, w);
    lemma_volume_turns(u, w, v);
    lemma_volume_turns(w, v, u);
    lemma_volume_turns(v, u, w);
}

/// A factor other than 0 that dividend and divisor share divides out.
pub proof fn lemma_common_factor(c: real, a: real, b: real)
    requires
        c != 0 as real,
        b != 0 as real,
    ensures
        times(c, b) != 0 as real,
        over(times(c, a), times(c, b)) == over(a, b),
{
    let q = over(a, b);
    lemma_quotient(a, b);
    lemma_triple(c, q, b);
    assert(times(c, a) == times(q, times(c, b)));
    assert(times(c, b) != 0 as real) by {
        lemma_commutes(c, b);
        lemma_product_over(b, c);
        lemma_constants(0 as real);
        lemma_reciprocal(0 as real, c);
        lemma_commutes(0 as real, over(1 as real, c));
        lemma_constants(over(1 as real, c));
    }
    lemma_product_over(q, times(c, b));
}

pub proof fn lemma_product_sign(a: real, b: real)
    requires
        a >= 0 as real,
        b >= 0 as real,
    ensures
        times(a, b) >= 0 as real,
{
    reveal(times);
    assert(a * b >= 0 as real) by (nonlinear_arith)
        requires
            a >= 0 as real,
            b >= 0 as real,
    ;
}

pub proof fn lemma_half()
    ensures
        (0 as real) < over(1 as real, 2 as real) < 1 as real,
        over(1 as real, 2 as real) + over(1 as real, 2 as real) == 1 as real,
{
    reveal(over);
}

/// A mean of two numbers with weights that add up to 1 lies between bounds on both.
pub proof fn lemma_mean_in_range(a: real, b: real, t: real, lo: real, hi: real)
    requires
        lo <= a <= hi,
        lo <= b <= hi,
        (0 as real) <= t <= 1 as real,
    ensures
        lo <= times(a, (1 as real) - t) + times(b, t) <= hi,
{
    let s = (1 as real) - t;
    lemma_product_sign(s, a - lo);
    lemma_product_sign(s, hi - a);
    lemma_product_sign(t, b - lo);
    lemma_product_sign(t, hi - b);
    lemma_distributes(s, a, lo);
    lemma_distributes(s, hi, a);
    lemma_distributes(t, b, lo);
    lemma_distributes(t, hi, b);
    lemma_commutes(a, s);
    lemma_commutes(b, t);
    lemma_distributes(lo, s, t);
    lemma_distributes(hi, s, t);
    lemma_commutes(lo, s);
    lemma_commutes(lo, t);
    lemma_commutes(hi, s);
    lemma_commutes(hi, t);
    lemma_constants(lo);
    lemma_constants(hi);
    assert(s + t == 1 as real);
}

/// A weighted sum of two numbers is linear in them.
pub proof fn lemma_mean_linear(
    a: real,
    b: real,
    x: (real, real),
    y: (real, real),
    s: real,
    t: real,
)
    ensures
        times(times(a, x.0) + times(b, y.0), s) + times(times(a, x.1) + times(b, y.1), t) == times(
            a,
            times(x.0, s) + times(x.1, t),
        ) + times(b, times(y.0, s) + times(y.1, t)),
{
    lemma_sum_expands(times(a, x.0), times(b, y.0), 0 as real, s);
    lemma_sum_expands(times(a, x.1), times(b, y.1), 0 as real, t);
    lemma_constants(s);
    lemma_constants(t);
    lemma_commutes(s, 0 as real);
    lemma_commutes(t, 0 as real);
    lemma_associates(a, x.0, s);
    lemma_associates(b, y.0, s);
    lemma_associates(a, x.1, t);
    lemma_associates(b, y.1, t);
    lemma_distributes(a, times(x.0, s), times(x.1, t));
    lemma_distributes(b, times(y.0, s), times(y.1, t));
}

/// The integer `n` as a real number.
pub open spec fn of_int(n: int) -> real {
    n as real
}

/// The number is an integer.
pub open spec fn whole(a: real) -> bool {
    exists|n: int| a == #[trigger] of_int(n)
}

proof fn lemma_integer_product(a: int, b: int)
    ensures
        times(a as real, b as real) == (a * b) as real,
    decreases
            if b >= 0 {
                b
            } else {
                -b
            },
{
    lemma_constants(a as real);
    if b > 0 {
        lemma_integer_product(a, b - 1);
        lemma_distributes(a as real, (b - 1) as real, 1 as real);
        assert(a * (b - 1) + a == a * b) by (nonlinear_arith);
    } else if b < 0 {
        lemma_integer_product(a, b + 1);
        lemma_distributes(a as real, (b + 1) as real, 1 as real);
        assert(a * (b + 1) - a == a * b) by (nonlinear_arith);
    } else {
        assert(a * 0 == 0) by (nonlinear_arith);
    }
}

/// Sums, differences and products of integers are integers.
pub proof fn lemma_whole(a: real, b: real)
    requires
        whole(a),
        whole(b),
    ensures
        whole(a + b),
        whole(a - b),
        whole(times(a, b)),
{
    let m = choose|m: int| a == #[trigger] of_int(m);
    let n = choose|n: int| b == #[trigger] of_int(n);
    lemma_integer_product(m, n);
    assert(a + b == of_int(m + n));
    assert(a - b == of_int(m - n));
    assert(times(a, b) == of_int(m * n));
}

} // verus!
