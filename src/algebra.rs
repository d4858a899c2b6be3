use vstd::prelude::*;

verus! {

/// A vector of three mathematical integers.
pub type Vec3 = (int, int, int);

pub open spec fn diff(a: Vec3, b: Vec3) -> Vec3 {
    (a.0 - b.0, a.1 - b.1, a.2 - b.2)
}

pub open spec fn cross(a: Vec3, b: Vec3) -> Vec3 {
    (a.1 * b.2 - a.2 * b.1, a.2 * b.0 - a.0 * b.2, a.0 * b.1 - a.1 * b.0)
}

pub open spec fn dot(a: Vec3, b: Vec3) -> int {
    a.0 * b.0 + a.1 * b.1 + a.2 * b.2
}

pub proof fn lemma_distribute(x: int, y: int, z: int)
    ensures
        x * (y - z) == x * y - x * z,
        x * (y + z) == x * y + x * z,
        (y - z) * x == y * x - z * x,
        (y + z) * x == y * x + z * x,
{
    assert(x * (y - z) == x * y - x * z) by (nonlinear_arith);
    assert(x * (y + z) == x * y + x * z) by (nonlinear_arith);
}

pub proof fn lemma_reorder(x: int, y: int, z: int)
    ensures
        x * (y * z) == (x * y) * z,
        x * (y * z) == y * (x * z),
        x * (y * z) == z * (x * y),
        x * y == y * x,
        x * (-y) == -(x * y),
{
    assert(x * (y * z) == (x * y) * z) by (nonlinear_arith);
    assert(x * (y * z) == y * (x * z)) by (nonlinear_arith);
    assert(x * (y * z) == z * (x * y)) by (nonlinear_arith);
    assert(x * (-y) == -(x * y)) by (nonlinear_arith);
}

proof fn lemma_triple_first(a0: int, a1: int, a2: int, b0: int, b1: int, b2: int, c0: int, c1: int, c2: int)
    ensures
        a1 * (b0 * c1 - b1 * c0) - a2 * (b2 * c0 - b0 * c2) == b0 * (a0 * c0 + a1 * c1 + a2 * c2) - c0 * (
        a0 * b0 + a1 * b1 + a2 * b2),
{
    lemma_distribute(a1, b0 * c1, b1 * c0);
    lemma_distribute(a2, b2 * c0, b0 * c2);
    lemma_distribute(b0, a0 * c0 + a1 * c1, a2 * c2);
    lemma_distribute(b0, a0 * c0, a1 * c1);
    lemma_distribute(c0, a0 * b0 + a1 * b1, a2 * b2);
    lemma_distribute(c0, a0 * b0, a1 * b1);
    lemma_reorder(a1, b0, c1);
    lemma_reorder(a1, b1, c0);
    lemma_reorder(a2, b2, c0);
    lemma_reorder(a2, b0, c2);
    lemma_reorder(b0, a0, c0);
    lemma_reorder(b0, a1, c1);
    lemma_reorder(b0, a2, c2);
    lemma_reorder(c0, a0, b0);
    lemma_reorder(c0, a1, b1);
    lemma_reorder(c0, a2, b2);
}

/// The vector triple product: `a × (b × c) = b (a·c) − c (a·b)`.
pub proof fn lemma_triple(a: Vec3, b: Vec3, c: Vec3)
    ensures
        cross(a, cross(b, c)) == (
            b.0 * dot(a, c) - c.0 * dot(a, b),
            b.1 * dot(a, c) - c.1 * dot(a, b),
            b.2 * dot(a, c) - c.2 * dot(a, b),
        ),
{
    lemma_triple_first(a.0, a.1, a.2, b.0, b.1, b.2, c.0, c.1, c.2);
    lemma_triple_first(a.1, a.2, a.0, b.1, b.2, b.0, c.1, c.2, c.0);
    lemma_triple_first(a.2, a.0, a.1, b.2, b.0, b.1, c.2, c.0, c.1);
}

pub proof fn lemma_dot_commutes(a: Vec3, b: Vec3)
    ensures
        dot(a, b) == dot(b, a),
{
    lemma_reorder(a.0, b.0, 0);
    lemma_reorder(a.1, b.1, 0);
    lemma_reorder(a.2, b.2, 0);
}

/// Cramer's rule for the ray–triangle system: with `p = d × e2`, `q = s × e1`,
/// `det = e1·p`, `u = s·p`, `v = d·q` and `w = e2·q`,
/// `det s = u e1 + v e2 − w d`.
pub proof fn lemma_cramer(s: Vec3, e1: Vec3, e2: Vec3, d: Vec3)
    ensures
        ({
            let p = cross(d, e2);
            let q = cross(s, e1);
            let det = dot(e1, p);
            let u = dot(s, p);
            let v = dot(d, q);
            let w = dot(e2, q);
            &&& det * s.0 == u * e1.0 + v * e2.0 - w * d.0
            &&& det * s.1 == u * e1.1 + v * e2.1 - w * d.1
            &&& det * s.2 == u * e1.2 + v * e2.2 - w * d.2
        }),
{
    let p = cross(d, e2);
    let q = cross(s, e1);
    lemma_triple(p, s, e1);
    lemma_triple(q, e2, d);
    lemma_dot_commutes(p, e1);
    lemma_dot_commutes(p, s);
    lemma_dot_commutes(q, d);
    lemma_dot_commutes(q, e2);
    // e2 × d = −p, and q × (−p) = p × q
    lemma_reorder(e2.1, d.2, 0);
    lemma_reorder(e2.2, d.1, 0);
    lemma_reorder(e2.2, d.0, 0);
    lemma_reorder(e2.0, d.2, 0);
    lemma_reorder(e2.0, d.1, 0);
    lemma_reorder(e2.1, d.0, 0);
    assert(cross(e2, d) == (-p.0, -p.1, -p.2));
    lemma_reorder(q.1, p.2, 0);
    lemma_reorder(q.2, p.1, 0);
    lemma_reorder(q.2, p.0, 0);
    lemma_reorder(q.0, p.2, 0);
    lemma_reorder(q.0, p.1, 0);
    lemma_reorder(q.1, p.0, 0);
    assert(cross(q, (-p.0, -p.1, -p.2)) == cross(p, q));
    lemma_reorder(s.0, dot(p, e1), 0);
    lemma_reorder(s.1, dot(p, e1), 0);
    lemma_reorder(s.2, dot(p, e1), 0);
    lemma_reorder(e1.0, dot(p, s), 0);
    lemma_reorder(e1.1, dot(p, s), 0);
    lemma_reorder(e1.2, dot(p, s), 0);
    lemma_reorder(e2.0, dot(q, d), 0);
    lemma_reorder(e2.1, dot(q, d), 0);
    lemma_reorder(e2.2, dot(q, d), 0);
    lemma_reorder(d.0, dot(q, e2), 0);
    lemma_reorder(d.1, dot(q, e2), 0);
    lemma_reorder(d.2, dot(q, e2), 0);
}

/// `|x y| <= X Y` where `|x| <= X` and `|y| <= Y`.
pub proof fn lemma_mul_bound(x: int, y: int, bx: int, by: int)
    requires
        -bx <= x <= bx,
        -by <= y <= by,
    ensures
        -(bx * by) <= x * y <= bx * by,
{
    assert(-(bx * by) <= x * y <= bx * by) by (nonlinear_arith)
        requires
            -bx <= x <= bx,
            -by <= y <= by,
    ;
}

} // verus!
