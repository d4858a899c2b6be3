use vstd::prelude::*;

use crate::aabb::Bounds;
use crate::ray::{in_limit, Ray};

verus! {

/// The point at ray parameter `tn / td` (`td > 0`) lies in `b` grown by `eps`
/// on every face.
pub open spec fn line_in_box(b: Bounds, eps: int, ray: Ray, tn: int, td: int) -> bool {
    forall|axis: int|
        0 <= axis < 3 ==> td * (b.min[axis] - eps) <= #[trigger] (td * ray.origin[axis] + tn
            * ray.dir[axis]) <= td * (b.max[axis] + eps)
}

/// At ray parameter `tn / td` (`td > 0`) the coordinate `o + t d` lies in
/// `[lo, hi]`.
pub open spec fn in_slab(lo: int, hi: int, o: int, d: int, tn: int, td: int) -> bool {
    td > 0 && td * lo <= td * o + tn * d <= td * hi
}

/// On one axis: where `d == 0`, whether the origin lies in `[lo, hi]`; else the
/// parameter interval `[nl / den, nh / den]` (`den = |d|`) over which the ray
/// lies in that slab.
fn axis_interval(lo: i64, hi: i64, o: i64, d: i64) -> (r: (bool, i64, i64, i64))
    requires
        -0x4_0000_0000 <= lo <= 0x4_0000_0000,
        -0x4_0000_0000 <= hi <= 0x4_0000_0000,
        -0x8_0000 <= o <= 0x8_0000,
        -0x8_0000 <= d <= 0x8_0000,
    ensures
        -0x8_0000_0000 <= r.1 <= 0x8_0000_0000,
        -0x8_0000_0000 <= r.2 <= 0x8_0000_0000,
        0 <= r.3 <= 0x8_0000,
        d == 0 ==> r.3 == 0 && r.0 == (lo <= o <= hi),
        d != 0 ==> r.0 && r.3 > 0,
        forall|tn: int, td: int|
            #[trigger] in_slab(lo as int, hi as int, o as int, d as int, tn, td) ==> {
                &&& r.0
                &&& r.3 > 0 ==> td * r.1 <= tn * r.3 <= td * r.2
            },
        forall|tn: int, td: int|
            td > 0 && r.0 && (r.3 > 0 ==> td * r.1 <= tn * r.3 <= td * r.2) ==> #[trigger] in_slab(
                lo as int,
                hi as int,
                o as int,
                d as int,
                tn,
                td,
            ),
{
    if d == 0 {
        let ok = lo <= o && o <= hi;
        proof {
            assert forall|tn: int, td: int| #[trigger] in_slab(lo as int, hi as int, o as int, d as int, tn, td) implies ok by {
                assert(tn * d == 0) by (nonlinear_arith)
                    requires
                        d == 0,
                ;
                assert(lo <= o <= hi) by (nonlinear_arith)
                    requires
                        td > 0,
                        td * lo <= td * o <= td * hi,
                ;
            }
            assert forall|tn: int, td: int| td > 0 && ok implies #[trigger] in_slab(
                lo as int,
                hi as int,
                o as int,
                d as int,
                tn,
                td,
            ) by {
                assert(tn * d == 0) by (nonlinear_arith)
                    requires
                        d == 0,
                ;
                assert(td * lo <= td * o <= td * hi) by (nonlinear_arith)
                    requires
                        td > 0,
                        lo <= o <= hi,
                ;
            }
        }
        (ok, 0, 0, 0)
    } else if d > 0 {
        let r = (true, lo - o, hi - o, d);
        proof {
            assert forall|tn: int, td: int| #[trigger] in_slab(lo as int, hi as int, o as int, d as int, tn, td) implies td
                * r.1 <= tn * r.3 <= td * r.2 by {
                assert(td * (lo - o) == td * lo - td * o && td * (hi - o) == td * hi - td * o)
                    by (nonlinear_arith);
            }
            assert forall|tn: int, td: int| td > 0 && td * r.1 <= tn * r.3 <= td * r.2 implies #[trigger] in_slab(
                lo as int,
                hi as int,
                o as int,
                d as int,
                tn,
                td,
            ) by {
                assert(td * (lo - o) == td * lo - td * o && td * (hi - o) == td * hi - td * o)
                    by (nonlinear_arith);
            }
        }
        r
    } else {
        let r = (true, o - hi, o - lo, -d);
        proof {
            assert forall|tn: int, td: int| #[trigger] in_slab(lo as int, hi as int, o as int, d as int, tn, td) implies td
                * r.1 <= tn * r.3 <= td * r.2 by {
                assert(td * (o - hi) == td * o - td * hi && td * (o - lo) == td * o - td * lo && tn * (
                -d) == -(tn * d)) by (nonlinear_arith);
            }
            assert forall|tn: int, td: int| td > 0 && td * r.1 <= tn * r.3 <= td * r.2 implies #[trigger] in_slab(
                lo as int,
                hi as int,
                o as int,
                d as int,
                tn,
                td,
            ) by {
                assert(td * (o - hi) == td * o - td * hi && td * (o - lo) == td * o - td * lo && tn * (
                -d) == -(tn * d)) by (nonlinear_arith);
            }
        }
        r
    }
}

/// Whether two bounded parameter intervals (`den > 0`) can meet: the lower end
/// of the first is not above the upper end of the second.
fn ends_meet(nl_i: i64, den_i: i64, nh_j: i64, den_j: i64) -> (r: bool)
    requires
        -0x8_0000_0000 <= nl_i <= 0x8_0000_0000,
        -0x8_0000_0000 <= nh_j <= 0x8_0000_0000,
        0 <= den_i <= 0x8_0000,
        0 <= den_j <= 0x8_0000,
    ensures
        r == (den_i == 0 || den_j == 0 || nl_i * den_j <= nh_j * den_i),
{
    if den_i == 0 || den_j == 0 {
        return true;
    }
    proof {
        crate::algebra::lemma_mul_bound(nl_i as int, den_j as int, 0x8_0000_0000, 0x8_0000);
        crate::algebra::lemma_mul_bound(nh_j as int, den_i as int, 0x8_0000_0000, 0x8_0000);
    }
    nl_i * den_j <= nh_j * den_i
}

proof fn lemma_ends_meet(nl_i: int, den_i: int, nh_j: int, den_j: int, tn: int, td: int)
    requires
        td > 0,
        den_i > 0,
        den_j > 0,
        td * nl_i <= tn * den_i,
        tn * den_j <= td * nh_j,
    ensures
        nl_i * den_j <= nh_j * den_i,
{
    assert(td * (nl_i * den_j) <= td * (nh_j * den_i)) by (nonlinear_arith)
        requires
            den_i > 0,
            den_j > 0,
            td * nl_i <= tn * den_i,
            tn * den_j <= td * nh_j,
    ;
    assert(nl_i * den_j <= nh_j * den_i) by (nonlinear_arith)
        requires
            td > 0,
            td * (nl_i * den_j) <= td * (nh_j * den_i),
    ;
}

proof fn lemma_dom_chain(ni: int, di: int, na: int, da: int, nb: int, db: int)
    requires
        di > 0,
        da > 0,
        db > 0,
    ensures
        (ni * da <= na * di && na * db <= nb * da) ==> ni * db <= nb * di,
{
    if ni * da <= na * di && na * db <= nb * da {
        crate::ray::lemma_ratio_order(ni, di, na, da, nb, db);
    }
}

/// Where every bounded interval's lower end lies at or below every bounded
/// interval's upper end, some parameter (the greatest lower end) lies in all of
/// them.
proof fn lemma_meet_point(nl: Seq<int>, nh: Seq<int>, den: Seq<int>) -> (w: (int, int))
    requires
        nl.len() == 3,
        nh.len() == 3,
        den.len() == 3,
        forall|i: int| 0 <= i < 3 ==> #[trigger] den[i] >= 0,
        forall|i: int, j: int|
            0 <= i < 3 && 0 <= j < 3 && den[i] > 0 && den[j] > 0 ==> #[trigger] (nl[i] * den[j])
                <= #[trigger] (nh[j] * den[i]),
    ensures
        w.1 > 0,
        forall|j: int|
            0 <= j < 3 && den[j] > 0 ==> w.1 * #[trigger] nl[j] <= w.0 * den[j] <= w.1 * nh[j],
{
    if den[0] == 0 && den[1] == 0 && den[2] == 0 {
        return (0, 1);
    }
    let k0: int = if den[0] > 0 {
        0
    } else if den[1] > 0 {
        1
    } else {
        2
    };
    let k1: int = if den[1] > 0 && nl[1] * den[k0] > nl[k0] * den[1] {
        1
    } else {
        k0
    };
    let k = if den[2] > 0 && nl[2] * den[k1] > nl[k1] * den[2] {
        2
    } else {
        k1
    };
    assert forall|i: int, a: int, b: int|
        0 <= i < 3 && 0 <= a < 3 && 0 <= b < 3 && den[i] > 0 && den[a] > 0 && den[b] > 0 implies ((
    #[trigger] (nl[i] * den[a]) <= nl[a] * den[i] && nl[a] * den[b] <= nl[b] * den[a]) ==> #[trigger] (nl[i]
        * den[b]) <= nl[b] * den[i]) by {
        lemma_dom_chain(nl[i], den[i], nl[a], den[a], nl[b], den[b]);
    }
    assert forall|j: int| 0 <= j < 3 && den[j] > 0 implies nl[j] * den[k] <= nl[k] * den[j] by {
        assert(nl[k0] * den[k0] <= nl[k0] * den[k0]);
        assert(nl[k1] * den[k1] <= nl[k1] * den[k1]);
        assert(nl[k] * den[k] <= nl[k] * den[k]);
        if j == k0 {
            assert(nl[j] * den[k1] <= nl[k1] * den[j]);
        } else if j == 1 {
            assert(nl[j] * den[k1] <= nl[k1] * den[j]);
        }
        if j != 2 {
            assert(nl[j] * den[k1] <= nl[k1] * den[j]);
        }
    }
    assert forall|j: int| 0 <= j < 3 && den[j] > 0 implies den[k] * #[trigger] nl[j] <= nl[k] * den[j] <= den[k]
        * nh[j] by {
        assert(nl[k] * den[j] <= nh[j] * den[k]);
        assert(nl[j] * den[k] <= nl[k] * den[j]);
    }
    (nl[k], den[k])
}

/// The slab test of the ray against `b` grown by `eps` on every face: the
/// ray's parameter intervals over the three slabs are intersected, and the
/// box is accepted exactly where the ray's line passes through it.
pub fn collides(b: &Bounds, ray: &Ray, eps: u32) -> (r: bool)
    requires
        ray.in_limit(),
    ensures
        r == exists|tn: int, td: int| td > 0 && #[trigger] line_in_box(*b, eps as int, *ray, tn, td),
{
    proof {
        assert(in_limit(ray.origin[0] as int) && in_limit(ray.dir[0] as int));
        assert(in_limit(ray.origin[1] as int) && in_limit(ray.dir[1] as int));
        assert(in_limit(ray.origin[2] as int) && in_limit(ray.dir[2] as int));
    }
    let e = eps as i64;
    let x = axis_interval(b.min[0] as i64 - e, b.max[0] as i64 + e, ray.origin[0] as i64, ray.dir[0] as i64);
    let y = axis_interval(b.min[1] as i64 - e, b.max[1] as i64 + e, ray.origin[1] as i64, ray.dir[1] as i64);
    let z = axis_interval(b.min[2] as i64 - e, b.max[2] as i64 + e, ray.origin[2] as i64, ray.dir[2] as i64);
    let r = x.0 && y.0 && z.0
        && ends_meet(x.1, x.3, x.2, x.3) && ends_meet(x.1, x.3, y.2, y.3) && ends_meet(x.1, x.3, z.2, z.3)
        && ends_meet(y.1, y.3, x.2, x.3) && ends_meet(y.1, y.3, y.2, y.3) && ends_meet(y.1, y.3, z.2, z.3)
        && ends_meet(z.1, z.3, x.2, x.3) && ends_meet(z.1, z.3, y.2, y.3) && ends_meet(z.1, z.3, z.2, z.3);
    proof {
        assert forall|tn: int, td: int| td > 0 && line_in_box(*b, eps as int, *ray, tn, td) implies r by {
            assert(td * (b.min[0] - eps) <= td * ray.origin[0] + tn * ray.dir[0] <= td * (b.max[0] + eps));
            assert(td * (b.min[1] - eps) <= td * ray.origin[1] + tn * ray.dir[1] <= td * (b.max[1] + eps));
            assert(td * (b.min[2] - eps) <= td * ray.origin[2] + tn * ray.dir[2] <= td * (b.max[2] + eps));
            assert(in_slab(b.min[0] - eps, b.max[0] + eps, ray.origin[0] as int, ray.dir[0] as int, tn, td));
            assert(in_slab(b.min[1] - eps, b.max[1] + eps, ray.origin[1] as int, ray.dir[1] as int, tn, td));
            assert(in_slab(b.min[2] - eps, b.max[2] + eps, ray.origin[2] as int, ray.dir[2] as int, tn, td));
            if x.3 > 0 && y.3 > 0 {
                lemma_ends_meet(x.1 as int, x.3 as int, y.2 as int, y.3 as int, tn, td);
                lemma_ends_meet(y.1 as int, y.3 as int, x.2 as int, x.3 as int, tn, td);
            }
            if x.3 > 0 && z.3 > 0 {
                lemma_ends_meet(x.1 as int, x.3 as int, z.2 as int, z.3 as int, tn, td);
                lemma_ends_meet(z.1 as int, z.3 as int, x.2 as int, x.3 as int, tn, td);
            }
            if y.3 > 0 && z.3 > 0 {
                lemma_ends_meet(y.1 as int, y.3 as int, z.2 as int, z.3 as int, tn, td);
                lemma_ends_meet(z.1 as int, z.3 as int, y.2 as int, y.3 as int, tn, td);
            }
            if x.3 > 0 {
                lemma_ends_meet(x.1 as int, x.3 as int, x.2 as int, x.3 as int, tn, td);
            }
            if y.3 > 0 {
                lemma_ends_meet(y.1 as int, y.3 as int, y.2 as int, y.3 as int, tn, td);
            }
            if z.3 > 0 {
                lemma_ends_meet(z.1 as int, z.3 as int, z.2 as int, z.3 as int, tn, td);
            }
        }
        if r {
            let nl = seq![x.1 as int, y.1 as int, z.1 as int];
            let nh = seq![x.2 as int, y.2 as int, z.2 as int];
            let den = seq![x.3 as int, y.3 as int, z.3 as int];
            assert forall|i: int, j: int|
                0 <= i < 3 && 0 <= j < 3 && den[i] > 0 && den[j] > 0 implies #[trigger] (nl[i] * den[j])
                <= #[trigger] (nh[j] * den[i]) by {
                if i == 0 && j == 0 {
                } else if i == 0 && j == 1 {
                } else if i == 0 && j == 2 {
                } else if i == 1 && j == 0 {
                } else if i == 1 && j == 1 {
                } else if i == 1 && j == 2 {
                } else if i == 2 && j == 0 {
                } else if i == 2 && j == 1 {
                } else {
                }
            }
            let w = lemma_meet_point(nl, nh, den);
            let tn = w.0;
            let td = w.1;
            assert(den[0] > 0 ==> td * nl[0] <= tn * den[0] <= td * nh[0]);
            assert(den[1] > 0 ==> td * nl[1] <= tn * den[1] <= td * nh[1]);
            assert(den[2] > 0 ==> td * nl[2] <= tn * den[2] <= td * nh[2]);
            assert(in_slab(b.min[0] - eps, b.max[0] + eps, ray.origin[0] as int, ray.dir[0] as int, tn, td));
            assert(in_slab(b.min[1] - eps, b.max[1] + eps, ray.origin[1] as int, ray.dir[1] as int, tn, td));
            assert(in_slab(b.min[2] - eps, b.max[2] + eps, ray.origin[2] as int, ray.dir[2] as int, tn, td));
            assert forall|axis: int| 0 <= axis < 3 implies td * (b.min[axis] - eps) <= #[trigger] (td
                * ray.origin[axis] + tn * ray.dir[axis]) <= td * (b.max[axis] + eps) by {
                if axis == 0 {
                } else if axis == 1 {
                } else {
                }
            }
            assert(line_in_box(*b, eps as int, *ray, tn, td));
        }
    }
    r
}

} // verus!
