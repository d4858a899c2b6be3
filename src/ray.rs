use vstd::prelude::*;

use crate::algebra::{cross, diff, dot, lemma_mul_bound, Vec3};
use crate::geom::{prims_valid, Prim, PrimVertex};

verus! {

/// Largest magnitude of a vertex coordinate, ray origin or direction component
/// that the ray queries accept: every product they form then fits in `i128`.
pub const COORD_LIMIT: i32 = 524288;

/// A ray `origin + t * dir`, tested for hits with `t_min <= t <= t_max`.
#[derive(Clone, Copy, Debug, PartialEq, Eq)]
pub struct Ray {
    pub origin: [i32; 3],
    pub dir: [i32; 3],
    pub t_min: i32,
    pub t_max: i32,
}

/// A hit on primitive `prim` at ray parameter `num / den` (`den > 0`).
#[derive(Clone, Copy, Debug, PartialEq, Eq)]
pub struct Hit {
    pub prim: u32,
    pub num: i128,
    pub den: i128,
}

pub open spec fn in_limit(x: int) -> bool {
    -COORD_LIMIT <= x <= COORD_LIMIT
}

/// Every vertex position lies within `COORD_LIMIT` on every axis.
pub open spec fn vertices_in_limit(vertices: Seq<PrimVertex>) -> bool {
    forall|i: int, axis: int|
        0 <= i < vertices.len() && 0 <= axis < 3 ==> in_limit(#[trigger] vertices[i].pos[axis] as int)
}

impl Ray {
    pub open spec fn in_limit(self) -> bool {
        forall|axis: int|
            0 <= axis < 3 ==> in_limit(#[trigger] self.origin[axis] as int) && in_limit(
                self.dir[axis] as int,
            )
    }
}

pub open spec fn point(p: [i32; 3]) -> Vec3 {
    (p[0] as int, p[1] as int, p[2] as int)
}

/// Corner `k` of primitive `p`.
pub open spec fn corner_of(prims: Seq<Prim>, vertices: Seq<PrimVertex>, p: int, k: int) -> Vec3 {
    point(vertices[prims[p].indices[k] as int].pos)
}

/// The terms of the ray–triangle test on primitive `p`, `(det, u, v, w)`, with
/// `e1`, `e2` the edges from corner 0, `s` the origin seen from corner 0,
/// `det = e1·(dir × e2)`, `u = s·(dir × e2)`, `v = dir·(s × e1)`,
/// `w = e2·(s × e1)`, all negated where `det` is negative.
pub open spec fn tri_terms(prims: Seq<Prim>, vertices: Seq<PrimVertex>, ray: Ray, p: int) -> (int, int, int, int) {
    let a = corner_of(prims, vertices, p, 0);
    let e1 = diff(corner_of(prims, vertices, p, 1), a);
    let e2 = diff(corner_of(prims, vertices, p, 2), a);
    let d = point(ray.dir);
    let s = diff(point(ray.origin), a);
    let pv = cross(d, e2);
    let q = cross(s, e1);
    let det = dot(e1, pv);
    let u = dot(s, pv);
    let v = dot(d, q);
    let w = dot(e2, q);
    if det < 0 {
        (-det, -u, -v, -w)
    } else {
        (det, u, v, w)
    }
}

/// The ray meets primitive `p` (faces and edges included) at a parameter
/// `w / det` inside the ray's window. A ray in the triangle's plane meets it
/// nowhere.
pub open spec fn hits(prims: Seq<Prim>, vertices: Seq<PrimVertex>, ray: Ray, p: int) -> bool {
    let (det, u, v, w) = tri_terms(prims, vertices, ray, p);
    &&& det > 0
    &&& 0 <= u
    &&& 0 <= v
    &&& u + v <= det
    &&& ray.t_min * det <= w <= ray.t_max * det
}

/// The hit on primitive `p`, where there is one.
pub open spec fn hit_of(prims: Seq<Prim>, vertices: Seq<PrimVertex>, ray: Ray, p: int) -> Hit {
    let (det, u, v, w) = tri_terms(prims, vertices, ray, p);
    Hit { prim: p as u32, num: w as i128, den: det as i128 }
}

/// `h1` is nearer than `h2`: a smaller parameter, or the same one on a
/// primitive with a smaller index.
pub open spec fn closer(h1: Hit, h2: Hit) -> bool {
    ||| h1.num * h2.den < h2.num * h1.den
    ||| (h1.num * h2.den == h2.num * h1.den && h1.prim < h2.prim)
}

/// Primitive `p` is not the excluded one.
pub open spec fn allowed(excl: Option<u32>, p: int) -> bool {
    match excl {
        Some(e) => e as int != p,
        None => true,
    }
}

/// `r` is the nearest hit among the primitives of `items` other than `excl`,
/// or `None` where none of them is hit.
pub open spec fn is_nearest(
    prims: Seq<Prim>,
    vertices: Seq<PrimVertex>,
    ray: Ray,
    excl: Option<u32>,
    items: Set<int>,
    r: Option<Hit>,
) -> bool {
    match r {
        None => forall|p: int|
            #[trigger] items.contains(p) && allowed(excl, p) ==> !hits(prims, vertices, ray, p),
        Some(h) => {
            &&& items.contains(h.prim as int)
            &&& allowed(excl, h.prim as int)
            &&& hits(prims, vertices, ray, h.prim as int)
            &&& h == hit_of(prims, vertices, ray, h.prim as int)
            &&& forall|p: int|
                #[trigger] items.contains(p) && allowed(excl, p) && hits(prims, vertices, ray, p)
                    ==> !closer(hit_of(prims, vertices, ray, p), h)
        },
    }
}

/// Bound on every test term: `|det|, |u|, |v|, |w| <= TERM_LIMIT`.
pub open spec fn term_limit() -> int {
    3 * 0x2000_0000_0000_0000int
}

type I3 = (i128, i128, i128);

pub open spec fn wide(a: I3) -> Vec3 {
    (a.0 as int, a.1 as int, a.2 as int)
}

pub open spec fn within(a: Vec3, b: int) -> bool {
    -b <= a.0 <= b && -b <= a.1 <= b && -b <= a.2 <= b
}

fn diff_exec(a: [i32; 3], b: [i32; 3]) -> (r: I3)
    ensures
        wide(r) == diff(point(a), point(b)),
{
    (a[0] as i128 - b[0] as i128, a[1] as i128 - b[1] as i128, a[2] as i128 - b[2] as i128)
}

fn cross_exec(a: I3, b: I3) -> (r: I3)
    requires
        within(wide(a), 0x10_0000),
        within(wide(b), 0x10_0000),
    ensures
        wide(r) == cross(wide(a), wide(b)),
        within(wide(r), 0x200_0000_0000),
{
    proof {
        let m = 0x10_0000int;
        lemma_mul_bound(a.0 as int, b.1 as int, m, m);
        lemma_mul_bound(a.0 as int, b.2 as int, m, m);
        lemma_mul_bound(a.1 as int, b.0 as int, m, m);
        lemma_mul_bound(a.1 as int, b.2 as int, m, m);
        lemma_mul_bound(a.2 as int, b.0 as int, m, m);
        lemma_mul_bound(a.2 as int, b.1 as int, m, m);
    }
    (a.1 * b.2 - a.2 * b.1, a.2 * b.0 - a.0 * b.2, a.0 * b.1 - a.1 * b.0)
}

fn dot_exec(a: I3, b: I3) -> (r: i128)
    requires
        within(wide(a), 0x10_0000),
        within(wide(b), 0x200_0000_0000),
    ensures
        r as int == dot(wide(a), wide(b)),
        -term_limit() <= r <= term_limit(),
{
    proof {
        let m = 0x10_0000int;
        let n = 0x200_0000_0000int;
        lemma_mul_bound(a.0 as int, b.0 as int, m, n);
        lemma_mul_bound(a.1 as int, b.1 as int, m, n);
        lemma_mul_bound(a.2 as int, b.2 as int, m, n);
    }
    a.0 * b.0 + a.1 * b.1 + a.2 * b.2
}

/// The ray–triangle test on primitive `p`.
pub fn intrs_tri(prims: &Vec<Prim>, vertices: &Vec<PrimVertex>, ray: &Ray, p: usize) -> (r: Option<Hit>)
    requires
        p < prims@.len(),
        prims@.len() <= u32::MAX,
        prims_valid(prims@, vertices@),
        vertices_in_limit(vertices@),
        ray.in_limit(),
    ensures
        r == (if hits(prims@, vertices@, *ray, p as int) {
            Some(hit_of(prims@, vertices@, *ray, p as int))
        } else {
            None
        }),
        hit_bounded(hit_of(prims@, vertices@, *ray, p as int)),
{
    let prim = prims[p];
    proof {
        assert(prims@[p as int].indices[0] < vertices@.len());
        assert(prims@[p as int].indices[1] < vertices@.len());
        assert(prims@[p as int].indices[2] < vertices@.len());
    }
    let a = vertices[prim.indices[0] as usize].pos;
    let b = vertices[prim.indices[1] as usize].pos;
    let c = vertices[prim.indices[2] as usize].pos;
    proof {
        assert(in_limit(a[0] as int) && in_limit(a[1] as int) && in_limit(a[2] as int));
        assert(in_limit(b[0] as int) && in_limit(b[1] as int) && in_limit(b[2] as int));
        assert(in_limit(c[0] as int) && in_limit(c[1] as int) && in_limit(c[2] as int));
        assert(in_limit(ray.origin[0] as int) && in_limit(ray.origin[1] as int) && in_limit(
            ray.origin[2] as int,
        ));
        assert(in_limit(ray.dir[0] as int) && in_limit(ray.dir[1] as int) && in_limit(
            ray.dir[2] as int,
        ));
    }
    let e1 = diff_exec(b, a);
    let e2 = diff_exec(c, a);
    let d: I3 = (ray.dir[0] as i128, ray.dir[1] as i128, ray.dir[2] as i128);
    let s = diff_exec(ray.origin, a);
    let pv = cross_exec(d, e2);
    let q = cross_exec(s, e1);
    let mut det = dot_exec(e1, pv);
    let mut u = dot_exec(s, pv);
    let mut v = dot_exec(d, q);
    let mut w = dot_exec(e2, q);
    if det < 0 {
        det = -det;
        u = -u;
        v = -v;
        w = -w;
    }
    proof {
        assert(tri_terms(prims@, vertices@, *ray, p as int) == (det as int, u as int, v as int, w as int));
    }
    if det == 0 || u < 0 || v < 0 || u + v > det {
        return None;
    }
    proof {
        lemma_mul_bound(ray.t_min as int, det as int, 0x8000_0000, term_limit());
        lemma_mul_bound(ray.t_max as int, det as int, 0x8000_0000, term_limit());
    }
    if (ray.t_min as i128) * det > w || w > (ray.t_max as i128) * det {
        return None;
    }
    Some(Hit { prim: p as u32, num: w, den: det })
}

/// A hit's terms are within the bounds that the test's products keep.
pub open spec fn hit_bounded(h: Hit) -> bool {
    &&& -term_limit() <= h.num <= term_limit()
    &&& 0 <= h.den <= term_limit()
}

proof fn lemma_cross_bound(a: Vec3, b: Vec3)
    requires
        within(a, 0x10_0000),
        within(b, 0x10_0000),
    ensures
        within(cross(a, b), 0x200_0000_0000),
{
    let m = 0x10_0000int;
    lemma_mul_bound(a.0, b.1, m, m);
    lemma_mul_bound(a.0, b.2, m, m);
    lemma_mul_bound(a.1, b.0, m, m);
    lemma_mul_bound(a.1, b.2, m, m);
    lemma_mul_bound(a.2, b.0, m, m);
    lemma_mul_bound(a.2, b.1, m, m);
}

proof fn lemma_dot_bound(a: Vec3, b: Vec3)
    requires
        within(a, 0x10_0000),
        within(b, 0x200_0000_0000),
    ensures
        -term_limit() <= dot(a, b) <= term_limit(),
{
    let m = 0x10_0000int;
    let n = 0x200_0000_0000int;
    lemma_mul_bound(a.0, b.0, m, n);
    lemma_mul_bound(a.1, b.1, m, n);
    lemma_mul_bound(a.2, b.2, m, n);
}

/// Every term of the ray–triangle test stays within `term_limit()`.
pub proof fn lemma_terms_bounded(prims: Seq<Prim>, vertices: Seq<PrimVertex>, ray: Ray, p: int)
    requires
        0 <= p < prims.len(),
        prims_valid(prims, vertices),
        vertices_in_limit(vertices),
        ray.in_limit(),
    ensures
        ({
            let (det, u, v, w) = tri_terms(prims, vertices, ray, p);
            &&& 0 <= det <= term_limit()
            &&& -term_limit() <= u <= term_limit()
            &&& -term_limit() <= v <= term_limit()
            &&& -term_limit() <= w <= term_limit()
        }),
{
    let ia = prims[p].indices[0] as int;
    let ib = prims[p].indices[1] as int;
    let ic = prims[p].indices[2] as int;
    assert(ia < vertices.len() && ib < vertices.len() && ic < vertices.len());
    assert(in_limit(vertices[ia].pos[0] as int) && in_limit(vertices[ia].pos[1] as int) && in_limit(vertices[ia].pos[2] as int));
    assert(in_limit(vertices[ib].pos[0] as int) && in_limit(vertices[ib].pos[1] as int) && in_limit(vertices[ib].pos[2] as int));
    assert(in_limit(vertices[ic].pos[0] as int) && in_limit(vertices[ic].pos[1] as int) && in_limit(vertices[ic].pos[2] as int));
    assert(in_limit(ray.origin[0] as int) && in_limit(ray.origin[1] as int) && in_limit(ray.origin[2] as int));
    assert(in_limit(ray.dir[0] as int) && in_limit(ray.dir[1] as int) && in_limit(ray.dir[2] as int));
    let a = corner_of(prims, vertices, p, 0);
    let e1 = diff(corner_of(prims, vertices, p, 1), a);
    let e2 = diff(corner_of(prims, vertices, p, 2), a);
    let d = point(ray.dir);
    let s = diff(point(ray.origin), a);
    lemma_cross_bound(d, e2);
    lemma_cross_bound(s, e1);
    lemma_dot_bound(e1, cross(d, e2));
    lemma_dot_bound(s, cross(d, e2));
    lemma_dot_bound(d, cross(s, e1));
    lemma_dot_bound(e2, cross(s, e1));
}

/// A hit's parameter has a positive denominator, and both its terms stay
/// within `term_limit()`.
pub proof fn lemma_hit_bounded(prims: Seq<Prim>, vertices: Seq<PrimVertex>, ray: Ray, p: int)
    requires
        0 <= p < prims.len(),
        prims_valid(prims, vertices),
        vertices_in_limit(vertices),
        ray.in_limit(),
        hits(prims, vertices, ray, p),
    ensures
        hit_bounded(hit_of(prims, vertices, ray, p)),
        hit_of(prims, vertices, ray, p).den > 0,
        hit_of(prims, vertices, ray, p).num == tri_terms(prims, vertices, ray, p).3,
        hit_of(prims, vertices, ray, p).den == tri_terms(prims, vertices, ray, p).0,
{
    lemma_terms_bounded(prims, vertices, ray, p);
}

pub proof fn lemma_ratio_order(n1: int, d1: int, n2: int, d2: int, n3: int, d3: int)
    requires
        d1 > 0,
        d2 > 0,
        d3 > 0,
        n1 * d2 <= n2 * d1,
        n2 * d3 <= n3 * d2,
    ensures
        n1 * d3 <= n3 * d1,
        (n1 * d2 < n2 * d1 || n2 * d3 < n3 * d2) ==> n1 * d3 < n3 * d1,
{
    assert(n1 * d3 * d2 <= n3 * d1 * d2) by (nonlinear_arith)
        requires
            d1 > 0,
            d2 > 0,
            d3 > 0,
            n1 * d2 <= n2 * d1,
            n2 * d3 <= n3 * d2,
    ;
    assert(n1 * d3 <= n3 * d1) by (nonlinear_arith)
        requires
            d2 > 0,
            n1 * d3 * d2 <= n3 * d1 * d2,
    ;
    if n1 * d2 < n2 * d1 || n2 * d3 < n3 * d2 {
        assert(n1 * d3 * d2 < n3 * d1 * d2) by (nonlinear_arith)
            requires
                d1 > 0,
                d2 > 0,
                d3 > 0,
                n1 * d2 <= n2 * d1,
                n2 * d3 <= n3 * d2,
                n1 * d2 < n2 * d1 || n2 * d3 < n3 * d2,
        ;
        assert(n1 * d3 < n3 * d1) by (nonlinear_arith)
            requires
                d2 > 0,
                n1 * d3 * d2 < n3 * d1 * d2,
        ;
    }
}

/// `closer` is transitive over hits with positive denominators.
pub proof fn lemma_closer_transitive(h1: Hit, h2: Hit, h3: Hit)
    requires
        h1.den > 0,
        h2.den > 0,
        h3.den > 0,
        closer(h1, h2),
        closer(h2, h3),
    ensures
        closer(h1, h3),
{
    lemma_ratio_order(
        h1.num as int,
        h1.den as int,
        h2.num as int,
        h2.den as int,
        h3.num as int,
        h3.den as int,
    );
}

/// Two hit lists with the same items agree on the nearest hit: the nearest
/// hit among a set of primitives is unique.
pub proof fn lemma_nearest_unique(
    prims: Seq<Prim>,
    vertices: Seq<PrimVertex>,
    ray: Ray,
    excl: Option<u32>,
    items: Set<int>,
    r1: Option<Hit>,
    r2: Option<Hit>,
)
    requires
        forall|p: int| items.contains(p) ==> 0 <= p <= u32::MAX,
        is_nearest(prims, vertices, ray, excl, items, r1),
        is_nearest(prims, vertices, ray, excl, items, r2),
    ensures
        r1 == r2,
{
    match r1 {
        Some(h1) => match r2 {
            Some(h2) => {
                assert(items.contains(h2.prim as int));
                assert(items.contains(h1.prim as int));
                if h1.prim != h2.prim {
                    assert(!closer(hit_of(prims, vertices, ray, h2.prim as int), h1));
                    assert(!closer(hit_of(prims, vertices, ray, h1.prim as int), h2));
                    assert(false);
                }
            },
            None => {
                assert(items.contains(h1.prim as int));
            },
        },
        None => match r2 {
            Some(h2) => {
                assert(items.contains(h2.prim as int));
            },
            None => {},
        },
    }
}

fn closer_exec(h1: &Hit, h2: &Hit) -> (r: bool)
    requires
        hit_bounded(*h1),
        hit_bounded(*h2),
    ensures
        r == closer(*h1, *h2),
{
    proof {
        lemma_mul_bound(h1.num as int, h2.den as int, term_limit(), term_limit());
        lemma_mul_bound(h2.num as int, h1.den as int, term_limit(), term_limit());
    }
    let a = h1.num * h2.den;
    let b = h2.num * h1.den;
    a < b || (a == b && h1.prim < h2.prim)
}

/// Scans the primitives of `items`, in order, for the nearest hit.
pub(crate) fn nearest_of(
    prims: &Vec<Prim>,
    vertices: &Vec<PrimVertex>,
    ray: &Ray,
    excl: Option<u32>,
    items: &[u32],
    best: Option<Hit>,
    seen: Ghost<Set<int>>,
) -> (r: Option<Hit>)
    requires
        prims@.len() <= u32::MAX,
        prims_valid(prims@, vertices@),
        vertices_in_limit(vertices@),
        ray.in_limit(),
        forall|j: int| 0 <= j < items@.len() ==> (#[trigger] items@[j]) < prims@.len(),
        forall|q: int| #[trigger] seen@.contains(q) ==> 0 <= q < prims@.len(),
        is_nearest(prims@, vertices@, *ray, excl, seen@, best),
        best matches Some(b) ==> hit_bounded(b),
    ensures
        is_nearest(
            prims@,
            vertices@,
            *ray,
            excl,
            seen@.union(Set::new(|p: int| exists|j: int| 0 <= j < items@.len() && items@[j] == p)),
            r,
        ),
        r matches Some(b) ==> hit_bounded(b),
{
    let mut best = best;
    let mut k: usize = 0;
    while k < items.len()
        invariant
            k <= items@.len(),
            prims@.len() <= u32::MAX,
            prims_valid(prims@, vertices@),
            vertices_in_limit(vertices@),
            ray.in_limit(),
            forall|j: int| 0 <= j < items@.len() ==> (#[trigger] items@[j]) < prims@.len(),
            forall|q: int| #[trigger] seen@.contains(q) ==> 0 <= q < prims@.len(),
            is_nearest(
                prims@,
                vertices@,
                *ray,
                excl,
                seen@.union(Set::new(|p: int| exists|j: int| 0 <= j < k && items@[j] == p)),
                best,
            ),
            best matches Some(b) ==> hit_bounded(b),
        decreases items@.len() - k,
    {
        let p = items[k];
        let ghost before = seen@.union(Set::new(|q: int| exists|j: int| 0 <= j < k && items@[j] == q));
        let ghost after = seen@.union(Set::new(|q: int| exists|j: int| 0 <= j < k + 1 && items@[j] == q));
        proof {
            assert(after =~= before.insert(p as int)) by {
                assert forall|q: int| after.contains(q) implies #[trigger] before.insert(p as int).contains(q) by {
                    if !seen@.contains(q) {
                        let j = choose|j: int| 0 <= j < k + 1 && items@[j] == q;
                        if j < k {
                            assert(before.contains(q));
                        }
                    }
                }
                assert forall|q: int| before.insert(p as int).contains(q) implies #[trigger] after.contains(q) by {
                    if q == p as int {
                        assert(items@[k as int] == q);
                    } else if !seen@.contains(q) {
                        let j = choose|j: int| 0 <= j < k && items@[j] == q;
                        assert(0 <= j < k + 1 && items@[j] == q);
                    }
                }
            }
        }
        let skip = match excl {
            Some(e) => e == p,
            None => false,
        };
        if !skip {
            let h = intrs_tri(prims, vertices, ray, p as usize);
            match h {
                Some(h) => {
                    let better = match &best {
                        Some(b) => closer_exec(&h, b),
                        None => true,
                    };
                    if better {
                        proof {
                            assert forall|q: int|
                                #[trigger] after.contains(q) && allowed(excl, q) && hits(prims@, vertices@, *ray, q)
                                implies !closer(hit_of(prims@, vertices@, *ray, q), h) by {
                                if q != p as int {
                                    assert(before.contains(q));
                                    match best {
                                        Some(b) => {
                                            if closer(hit_of(prims@, vertices@, *ray, q), h) {
                                                assert(0 <= q < prims@.len()) by {
                                                    if !seen@.contains(q) {
                                                        let j = choose|j: int| 0 <= j < k && items@[j] == q;
                                                        assert(items@[j] < prims@.len());
                                                    }
                                                }
                                                lemma_hit_bounded(prims@, vertices@, *ray, q);
                                                lemma_hit_bounded(prims@, vertices@, *ray, p as int);
                                                assert(before.contains(b.prim as int));
                                                assert(0 <= b.prim < prims@.len()) by {
                                                    if !seen@.contains(b.prim as int) {
                                                        let j = choose|j: int| 0 <= j < k && items@[j] == b.prim as int;
                                                        assert(items@[j] < prims@.len());
                                                    }
                                                }
                                                lemma_hit_bounded(prims@, vertices@, *ray, b.prim as int);
                                                lemma_closer_transitive(hit_of(prims@, vertices@, *ray, q), h, b);
                                            }
                                        },
                                        None => {},
                                    }
                                }
                            }
                        }
                        best = Some(h);
                    } else {
                        proof {
                            let b = best->Some_0;
                            assert(before.contains(b.prim as int));
                        }
                    }
                },
                None => {
                    proof {
                        if let Some(b) = best {
                            assert(before.contains(b.prim as int));
                        }
                    }
                },
            }
        } else {
            proof {
                if let Some(b) = best {
                    assert(before.contains(b.prim as int));
                }
            }
        }
        k = k + 1;
    }
    proof {
        assert(Set::new(|p: int| exists|j: int| 0 <= j < k && items@[j] == p) =~= Set::new(
            |p: int| exists|j: int| 0 <= j < items@.len() && items@[j] == p,
        ));
    }
    best
}

} // verus!
