use vstd::prelude::*;

use crate::algebra::{cross, diff, dot, lemma_cramer};
use crate::data::{prim_in_box, BvhData};
use crate::geom::{corner, prims_valid, Prim, PrimVertex};
use crate::ray::{
    allowed, corner_of, hit_bounded, hits, is_nearest, lemma_hit_bounded, nearest_of, point,
    tri_terms, vertices_in_limit, Hit, Ray,
};
use crate::slab::{collides, line_in_box};

verus! {

proof fn lemma_axis_in_box(
    det: int,
    u: int,
    v: int,
    w: int,
    o: int,
    d: int,
    a: int,
    b: int,
    c: int,
    lo: int,
    hi: int,
    eps: int,
)
    requires
        det > 0,
        u >= 0,
        v >= 0,
        u + v <= det,
        lo <= a <= hi,
        lo <= b <= hi,
        lo <= c <= hi,
        eps >= 0,
        det * (o - a) == u * (b - a) + v * (c - a) - w * d,
    ensures
        det * (lo - eps) <= det * o + w * d <= det * (hi + eps),
{
    assert(det * o + w * d == (det - u - v) * a + u * b + v * c) by (nonlinear_arith)
        requires
            det * (o - a) == u * (b - a) + v * (c - a) - w * d,
    ;
    assert((det - u - v) * lo <= (det - u - v) * a <= (det - u - v) * hi) by (nonlinear_arith)
        requires
            det - u - v >= 0,
            lo <= a <= hi,
    ;
    assert(u * lo <= u * b <= u * hi) by (nonlinear_arith)
        requires
            u >= 0,
            lo <= b <= hi,
    ;
    assert(v * lo <= v * c <= v * hi) by (nonlinear_arith)
        requires
            v >= 0,
            lo <= c <= hi,
    ;
    assert(det * (lo - eps) <= (det - u - v) * lo + u * lo + v * lo) by (nonlinear_arith)
        requires
            det > 0,
            eps >= 0,
    ;
    assert((det - u - v) * hi + u * hi + v * hi <= det * (hi + eps)) by (nonlinear_arith)
        requires
            det > 0,
            eps >= 0,
    ;
}

proof fn lemma_negate(x: int, s: int, u: int, e: int, v: int, f: int, w: int, g: int)
    requires
        x * s == u * e + v * f - w * g,
    ensures
        (-x) * s == (-u) * e + (-v) * f - (-w) * g,
{
    assert((-x) * s == (-u) * e + (-v) * f - (-w) * g) by (nonlinear_arith)
        requires
            x * s == u * e + v * f - w * g,
    ;
}

/// Where the ray hits primitive `p` and every corner of `p` lies in `b`, the
/// hit point lies in `b`, so the ray's line passes through `b` grown by any
/// `eps >= 0`.
pub proof fn lemma_hit_in_box(
    prims: Seq<Prim>,
    vertices: Seq<PrimVertex>,
    ray: Ray,
    p: int,
    b: crate::aabb::Bounds,
    eps: int,
)
    requires
        0 <= p < prims.len(),
        prims_valid(prims, vertices),
        hits(prims, vertices, ray, p),
        prim_in_box(b, prims, vertices, p),
        eps >= 0,
    ensures
        line_in_box(b, eps, ray, tri_terms(prims, vertices, ray, p).3, tri_terms(prims, vertices, ray, p).0),
{
    let a = corner_of(prims, vertices, p, 0);
    let bb = corner_of(prims, vertices, p, 1);
    let c = corner_of(prims, vertices, p, 2);
    let e1 = diff(bb, a);
    let e2 = diff(c, a);
    let d = point(ray.dir);
    let s = diff(point(ray.origin), a);
    lemma_cramer(s, e1, e2, d);
    let pv = cross(d, e2);
    let q = cross(s, e1);
    let det0 = dot(e1, pv);
    let u0 = dot(s, pv);
    let v0 = dot(d, q);
    let w0 = dot(e2, q);
    let (det, u, v, w) = tri_terms(prims, vertices, ray, p);
    if det0 < 0 {
        lemma_negate(det0, s.0, u0, e1.0, v0, e2.0, w0, d.0);
        lemma_negate(det0, s.1, u0, e1.1, v0, e2.1, w0, d.1);
        lemma_negate(det0, s.2, u0, e1.2, v0, e2.2, w0, d.2);
    }
    assert(b.min[0] <= corner(prims, vertices, p, 0, 0) <= b.max[0]);
    assert(b.min[0] <= corner(prims, vertices, p, 1, 0) <= b.max[0]);
    assert(b.min[0] <= corner(prims, vertices, p, 2, 0) <= b.max[0]);
    assert(b.min[1] <= corner(prims, vertices, p, 0, 1) <= b.max[1]);
    assert(b.min[1] <= corner(prims, vertices, p, 1, 1) <= b.max[1]);
    assert(b.min[1] <= corner(prims, vertices, p, 2, 1) <= b.max[1]);
    assert(b.min[2] <= corner(prims, vertices, p, 0, 2) <= b.max[2]);
    assert(b.min[2] <= corner(prims, vertices, p, 1, 2) <= b.max[2]);
    assert(b.min[2] <= corner(prims, vertices, p, 2, 2) <= b.max[2]);
    lemma_axis_in_box(det, u, v, w, ray.origin[0] as int, ray.dir[0] as int, a.0, bb.0, c.0, b.min[0] as int, b.max[0] as int, eps);
    lemma_axis_in_box(det, u, v, w, ray.origin[1] as int, ray.dir[1] as int, a.1, bb.1, c.1, b.min[1] as int, b.max[1] as int, eps);
    lemma_axis_in_box(det, u, v, w, ray.origin[2] as int, ray.dir[2] as int, a.2, bb.2, c.2, b.min[2] as int, b.max[2] as int, eps);
    assert forall|axis: int| 0 <= axis < 3 implies det * (b.min[axis] - eps) <= #[trigger] (det * ray.origin[axis]
        + w * ray.dir[axis]) <= det * (b.max[axis] + eps) by {
        if axis == 0 {
        } else if axis == 1 {
        } else {
        }
    }
}

impl BvhData {
    /// Number of records in the subtree under record `i`.
    pub open spec fn size(self, i: int) -> nat
        decreases self.uniforms@.len() - i,
    {
        if 0 <= i < self.uniforms@.len() {
            let u = self.uniforms@[i];
            if u.item_count == 0 && i < u.fst < self.uniforms@.len() && i < u.snd
                < self.uniforms@.len() {
                1 + self.size(u.fst as int) + self.size(u.snd as int)
            } else {
                1
            }
        } else {
            1
        }
    }

    /// Records still to visit under the ids on `stack`.
    pub open spec fn stack_size(self, stack: Seq<u32>) -> nat
        decreases stack.len(),
    {
        if stack.len() == 0 {
            0
        } else {
            self.stack_size(stack.drop_last()) + self.size(stack.last() as int)
        }
    }

    /// The primitives that the indices name.
    pub open spec fn item_set(self) -> Set<int> {
        Set::new(|p: int| exists|j: int| 0 <= j < self.indices@.len() && self.indices@[j] as int == p)
    }
}

/// Nearest hit of the ray over the flattened hierarchy, walked with an
/// explicit stack from the root: a record whose box (grown by `eps`) the ray
/// misses is skipped, a leaf's primitives are tested, an internal record's
/// children are pushed.
pub fn intrs_bvh(
    data: &BvhData,
    prims: &Vec<Prim>,
    vertices: &Vec<PrimVertex>,
    ray: &Ray,
    excl: Option<u32>,
    eps: u32,
) -> (r: Option<Hit>)
    requires
        data.traversable(prims@, vertices@),
        prims@.len() <= u32::MAX,
        prims_valid(prims@, vertices@),
        vertices_in_limit(vertices@),
        ray.in_limit(),
    ensures
        is_nearest(prims@, vertices@, *ray, excl, data.item_set(), r),
{
    let mut stack: Vec<u32> = Vec::new();
    stack.push(0);
    let mut best: Option<Hit> = None;
    let ghost mut seen: Set<int> = Set::empty();
    proof {
        assert forall|q: int|
            #[trigger] data.item_set().contains(q) && allowed(excl, q) && hits(prims@, vertices@, *ray, q)
            implies seen.contains(q) || exists|i: int|
            0 <= i < stack@.len() && data.subtree(stack@[i] as int).contains(q as u32) by {
            let j = choose|j: int| 0 <= j < data.indices@.len() && data.indices@[j] as int == q;
            assert(data.subtree(0).contains(data.indices@[j]));
            assert(data.indices@[j] == q as u32);
            assert(stack@[0] == 0);
            assert(data.subtree(stack@[0] as int).contains(q as u32));
        }
    }
    while stack.len() > 0
        invariant
            data.traversable(prims@, vertices@),
            prims@.len() <= u32::MAX,
            prims_valid(prims@, vertices@),
            vertices_in_limit(vertices@),
            ray.in_limit(),
            forall|i: int| 0 <= i < stack@.len() ==> (#[trigger] stack@[i]) < data.uniforms@.len(),
            forall|q: int| #[trigger] seen.contains(q) ==> data.item_set().contains(q),
            is_nearest(prims@, vertices@, *ray, excl, seen, best),
            best matches Some(b) ==> hit_bounded(b),
            forall|q: int|
                #[trigger] data.item_set().contains(q) && allowed(excl, q) && hits(prims@, vertices@, *ray, q)
                    ==> seen.contains(q) || exists|i: int|
                    0 <= i < stack@.len() && data.subtree(stack@[i] as int).contains(q as u32),
        decreases data.stack_size(stack@),
    {
        let ghost st = stack@;
        let s = stack.pop().unwrap();
        let ghost rest = stack@;
        proof {
            assert(st.drop_last() == rest);
            assert(data.stack_size(st) == data.stack_size(rest) + data.size(s as int));
            assert(data.size(s as int) >= 1);
            assert(data.node_sound(prims@, vertices@, s as int));
        }
        let u = data.uniforms[s as usize];
        if !collides(&u.bounds, ray, eps) {
            proof {
                assert forall|q: int|
                    #[trigger] data.item_set().contains(q) && allowed(excl, q) && hits(prims@, vertices@, *ray, q)
                    implies seen.contains(q) || exists|i: int|
                    0 <= i < rest.len() && data.subtree(rest[i] as int).contains(q as u32) by {
                    if !seen.contains(q) {
                        let i = choose|i: int| 0 <= i < st.len() && data.subtree(st[i] as int).contains(q as u32);
                        if i == st.len() - 1 {
                            let sub = data.subtree(s as int);
                            let j = choose|j: int| 0 <= j < sub.len() && sub[j] == q as u32;
                            assert(prim_in_box(u.bounds, prims@, vertices@, sub[j] as int));
                            let jj = choose|jj: int| 0 <= jj < data.indices@.len() && data.indices@[jj] as int == q;
                            assert(q < prims@.len());
                            lemma_hit_in_box(prims@, vertices@, *ray, q, u.bounds, eps as int);
                            lemma_hit_bounded(prims@, vertices@, *ray, q);
                            assert(false);
                        } else {
                            assert(rest[i] == st[i]);
                        }
                    }
                }
            }
        } else if u.item_count > 0 {
            let _ = data.indices.len();
            proof {
                assert(data.node_ok(s as int));
                assert(u.item_idx + u.item_count <= data.indices@.len());
            }
            let items = vstd::slice::slice_subrange(
                data.indices.as_slice(),
                u.item_idx as usize,
                u.item_idx as usize + u.item_count as usize,
            );
            proof {
                assert(items@ == data.subtree(s as int));
                assert forall|q: int| #[trigger] seen.contains(q) implies 0 <= q < prims@.len() by {
                    assert(data.item_set().contains(q));
                    let jj = choose|jj: int| 0 <= jj < data.indices@.len() && data.indices@[jj] as int == q;
                }
                assert forall|j: int| 0 <= j < items@.len() implies (#[trigger] items@[j]) < prims@.len() by {
                    assert(items@[j] == data.indices@[u.item_idx + j]);
                }
            }
            best = nearest_of(prims, vertices, ray, excl, items, best, Ghost(seen));
            let ghost added = Set::new(|p: int| exists|j: int| 0 <= j < items@.len() && items@[j] == p);
            proof {
                assert forall|q: int| #[trigger] added.contains(q) implies data.item_set().contains(q) by {
                    let j = choose|j: int| 0 <= j < items@.len() && items@[j] == q;
                    assert(data.indices@[u.item_idx + j] as int == q);
                }
                assert forall|q: int|
                    #[trigger] data.item_set().contains(q) && allowed(excl, q) && hits(prims@, vertices@, *ray, q)
                    implies seen.union(added).contains(q) || exists|i: int|
                    0 <= i < rest.len() && data.subtree(rest[i] as int).contains(q as u32) by {
                    if !seen.contains(q) {
                        let i = choose|i: int| 0 <= i < st.len() && data.subtree(st[i] as int).contains(q as u32);
                        if i == st.len() - 1 {
                            let j = choose|j: int| 0 <= j < items@.len() && items@[j] == q as u32;
                            let jj = choose|jj: int| 0 <= jj < data.indices@.len() && data.indices@[jj] as int == q;
                            assert(items@[j] == q);
                            assert(added.contains(q));
                        } else {
                            assert(rest[i] == st[i]);
                        }
                    }
                }
                seen = seen.union(added);
            }
        } else {
            stack.push(u.fst);
            stack.push(u.snd);
            proof {
                assert(stack@.drop_last() == rest.push(u.fst));
                assert(rest.push(u.fst).drop_last() == rest);
                assert(data.size(s as int) == 1 + data.size(u.fst as int) + data.size(u.snd as int));
                assert(stack@.last() == u.snd);
                assert(data.stack_size(stack@) == data.stack_size(rest.push(u.fst)) + data.size(u.snd as int));
                assert(rest.push(u.fst).last() == u.fst);
                assert(data.stack_size(rest.push(u.fst)) == data.stack_size(rest) + data.size(u.fst as int));
                assert(data.stack_size(stack@) == data.stack_size(rest) + data.size(u.fst as int) + data.size(
                    u.snd as int,
                ));
                assert(data.subtree(s as int) == data.subtree(u.fst as int) + data.subtree(u.snd as int));
                assert forall|q: int|
                    #[trigger] data.item_set().contains(q) && allowed(excl, q) && hits(prims@, vertices@, *ray, q)
                    implies seen.contains(q) || exists|i: int|
                    0 <= i < stack@.len() && data.subtree(stack@[i] as int).contains(q as u32) by {
                    if !seen.contains(q) {
                        let i = choose|i: int| 0 <= i < st.len() && data.subtree(st[i] as int).contains(q as u32);
                        if i == st.len() - 1 {
                            let sub = data.subtree(s as int);
                            let j = choose|j: int| 0 <= j < sub.len() && sub[j] == q as u32;
                            let la = data.subtree(u.fst as int).len();
                            if j < la {
                                assert(data.subtree(stack@[rest.len() as int] as int)[j] == q as u32);
                            } else {
                                assert(data.subtree(stack@[rest.len() as int + 1] as int)[j - la] == q as u32);
                            }
                        } else {
                            assert(stack@[i] == st[i]);
                        }
                    }
                }
            }
        }
    }
    proof {
        match best {
            Some(b) => {
                assert forall|q: int|
                    #[trigger] data.item_set().contains(q) && allowed(excl, q) && hits(prims@, vertices@, *ray, q)
                    implies !crate::ray::closer(crate::ray::hit_of(prims@, vertices@, *ray, q), b) by {
                    assert(seen.contains(q));
                }
                assert(seen.contains(b.prim as int));
            },
            None => {
                assert forall|q: int| #[trigger] data.item_set().contains(q) && allowed(excl, q) implies !hits(
                    prims@,
                    vertices@,
                    *ray,
                    q,
                ) by {
                    if hits(prims@, vertices@, *ray, q) {
                        assert(seen.contains(q));
                    }
                }
            },
        }
    }
    best
}

} // verus!
