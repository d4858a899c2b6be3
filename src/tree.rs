use vstd::prelude::*;
use vstd::math::max;
use vstd::seq_lib::{lemma_multiset_commutative, to_multiset_build, to_multiset_contains};

use crate::aabb::{items_valid, lemma_box_subset, lemma_corner_in_box, max_of, min_of, Bounds};
use crate::geom::{corner, prims_valid, Prim, PrimVertex, Scene};

verus! {

/// A node holding at most this many items is not split further.
pub const LEAF_ITEMS: usize = 2;

/// A node of the owned hierarchy. A leaf has no children and a non-empty item
/// list; an internal node has two children and no items of its own.
pub struct Aabb {
    pub fst: Option<Box<Aabb>>,
    pub snd: Option<Box<Aabb>>,
    pub bounds: Bounds,
    pub items: Vec<usize>,
}

/// The indices `0..n`, in order.
pub open spec fn all_items(n: nat) -> Seq<usize> {
    Seq::new(n, |i: int| i as usize)
}

/// Sum of the box's extents over the three axes, each counted from zero up.
pub open spec fn extent(b: Bounds) -> nat {
    (max(0, b.max[0] - b.min[0]) + max(0, b.max[1] - b.min[1]) + max(0, b.max[2] - b.min[2])) as nat
}

/// Three times the centroid of primitive `p` along `axis`: the sum of its
/// corners' coordinates.
pub open spec fn centroid3(prims: Seq<Prim>, vertices: Seq<PrimVertex>, p: int, axis: int) -> int {
    corner(prims, vertices, p, 0, axis) + corner(prims, vertices, p, 1, axis) + corner(
        prims,
        vertices,
        p,
        2,
        axis,
    )
}

/// The centroid of primitive `p` lies in `b`, faces included.
pub open spec fn centroid_in(b: Bounds, prims: Seq<Prim>, vertices: Seq<PrimVertex>, p: int) -> bool {
    forall|axis: int|
        0 <= axis < 3 ==> 3 * b.min[axis] <= #[trigger] centroid3(prims, vertices, p, axis) <= 3
            * b.max[axis]
}

/// Every side of `b` is too short to split: shorter than `eps / 2`, or than
/// two grid units.
pub open spec fn too_small(b: Bounds, eps: int) -> bool {
    forall|axis: int|
        0 <= axis < 3 ==> 2 * (b.max[axis] - b.min[axis]) < eps || #[trigger] b.max[axis] - b.min[axis]
            < 2
}

impl Aabb {
    pub open spec fn is_leaf(self) -> bool {
        self.fst is None && self.snd is None
    }

    /// The items of every leaf under this node, left to right.
    pub open spec fn leaf_items(self) -> Seq<usize>
        decreases self,
    {
        match self.fst {
            Some(a) => match self.snd {
                Some(b) => a.leaf_items() + b.leaf_items(),
                None => self.items@,
            },
            None => self.items@,
        }
    }

    /// Number of edges on the longest path from this node down to a leaf.
    pub open spec fn height(self) -> nat
        decreases self,
    {
        match self.fst {
            Some(a) => match self.snd {
                Some(b) => 1 + max(a.height() as int, b.height() as int) as nat,
                None => 0,
            },
            None => 0,
        }
    }

    /// Number of nodes in this subtree.
    pub open spec fn node_count(self) -> nat
        decreases self,
    {
        match self.fst {
            Some(a) => match self.snd {
                Some(b) => 1 + a.node_count() + b.node_count(),
                None => 1,
            },
            None => 1,
        }
    }

    /// A leaf is left unsplit only where it holds at most `LEAF_ITEMS` items,
    /// or the centroids of its items fit a box too small to split.
    pub open spec fn settled(self, eps: int, prims: Seq<Prim>, vertices: Seq<PrimVertex>) -> bool
        decreases self,
    {
        match self.fst {
            Some(a) => match self.snd {
                Some(b) => a.settled(eps, prims, vertices) && b.settled(eps, prims, vertices),
                None => self.leaf_settled(eps, prims, vertices),
            },
            None => self.leaf_settled(eps, prims, vertices),
        }
    }

    pub open spec fn leaf_settled(self, eps: int, prims: Seq<Prim>, vertices: Seq<PrimVertex>) -> bool {
        ||| self.items@.len() <= LEAF_ITEMS
        ||| exists|r: Bounds|
            #[trigger] too_small(r, eps) && forall|j: int|
                0 <= j < self.items@.len() ==> centroid_in(r, prims, vertices, self.items@[j] as int)
    }

    /// Shape and bounds invariants of a built hierarchy: leaves hold items and no
    /// children, internal nodes hold two children and no items, every node's box
    /// is the tight box of the primitives beneath it, and encloses its children.
    pub open spec fn wf(self, prims: Seq<Prim>, vertices: Seq<PrimVertex>) -> bool
        decreases self,
    {
        &&& self.bounds.tight(prims, vertices, self.leaf_items())
        &&& match self.fst {
            Some(a) => match self.snd {
                Some(b) => {
                    &&& self.items@.len() == 0
                    &&& a.wf(prims, vertices)
                    &&& b.wf(prims, vertices)
                    &&& self.bounds.encloses(a.bounds)
                    &&& self.bounds.encloses(b.bounds)
                },
                None => false,
            },
            None => {
                &&& self.snd is None
                &&& self.items@.len() > 0
                &&& items_valid(prims, self.items@)
            },
        }
    }

    /// The placeholder for a scene with no geometry: one leaf over the
    /// inverted sentinel box, holding item 0.
    pub fn from_scene_unloaded() -> (r: Aabb)
        ensures
            r.is_leaf(),
            r.items@ == seq![0usize],
            r.bounds.is_sentinel(),
    {
        let items: Vec<usize> = vec![0];
        let r = Aabb {
            fst: None,
            snd: None,
            bounds: Bounds { min: [i32::MAX, i32::MAX, i32::MAX], max: [i32::MIN, i32::MIN, i32::MIN] },
            items,
        };
        proof {
            assert(r.items@ =~= seq![0usize]);
        }
        r
    }

    /// Builds the hierarchy over every primitive of the scene. Splitting stops at
    /// `LEAF_ITEMS` items, or where the longest side of the box that is being
    /// split is shorter than `eps / 2` (or than two grid units).
    pub fn from_scene(eps: u32, scene: &Scene) -> (r: Aabb)
        requires
            scene.valid(),
        ensures
            match scene {
                Scene::Active { prims, vertices } if prims@.len() > 0 => {
                    &&& r.wf(prims@, vertices@)
                    &&& r.settled(eps as int, prims@, vertices@)
                    &&& r.leaf_items().to_multiset() == all_items(prims@.len()).to_multiset()
                    &&& r.bounds.tight(prims@, vertices@, all_items(prims@.len()))
                    &&& r.height() < prims@.len()
                    &&& r.node_count() < 2 * prims@.len()
                },
                _ => {
                    &&& r.is_leaf()
                    &&& r.items@ == seq![0usize]
                    &&& r.bounds.is_sentinel()
                },
            },
    {
        match scene {
            Scene::Unloaded => Aabb::from_scene_unloaded(),
            Scene::Active { prims, vertices } => {
                if prims.len() == 0 {
                    return Aabb::from_scene_unloaded();
                }
                let n = prims.len();
                let mut items: Vec<usize> = Vec::new();
                let mut i: usize = 0;
                while i < n
                    invariant
                        n == prims@.len(),
                        i <= n,
                        items@ =~= all_items(i as nat),
                    decreases n - i,
                {
                    items.push(i);
                    i = i + 1;
                }
                let bounds = Bounds::new(&items, prims, vertices);
                proof {
                    lemma_centroids_in_tight(prims@, vertices@, items@, bounds);
                }
                split(items, bounds, bounds, eps, prims, vertices)
            },
        }
    }
}

/// `r` is `a` with coordinate `axis` replaced by `v`.
fn with_axis(a: [i32; 3], axis: usize, v: i32) -> (r: [i32; 3])
    requires
        axis < 3,
    ensures
        forall|i: int| 0 <= i < 3 ==> #[trigger] r[i] == if i == axis { v } else { a[i] },
{
    if axis == 0 {
        [v, a[1], a[2]]
    } else if axis == 1 {
        [a[0], v, a[2]]
    } else {
        [a[0], a[1], v]
    }
}

/// Whether the centroid of primitive `p` lies in `b`, faces included.
fn centroid_within(b: &Bounds, prims: &Vec<Prim>, vertices: &Vec<PrimVertex>, p: usize) -> (r: bool)
    requires
        p < prims@.len(),
        prims_valid(prims@, vertices@),
    ensures
        r == centroid_in(*b, prims@, vertices@, p as int),
{
    proof {
        assert(prims@[p as int].indices[0] < vertices@.len());
        assert(prims@[p as int].indices[1] < vertices@.len());
        assert(prims@[p as int].indices[2] < vertices@.len());
    }
    let prim = prims[p];
    let a = vertices[prim.indices[0] as usize].pos;
    let bb = vertices[prim.indices[1] as usize].pos;
    let c = vertices[prim.indices[2] as usize].pos;
    let s0 = a[0] as i64 + bb[0] as i64 + c[0] as i64;
    let s1 = a[1] as i64 + bb[1] as i64 + c[1] as i64;
    let s2 = a[2] as i64 + bb[2] as i64 + c[2] as i64;
    let r = 3 * (b.min[0] as i64) <= s0 && s0 <= 3 * (b.max[0] as i64) && 3 * (b.min[1] as i64)
        <= s1 && s1 <= 3 * (b.max[1] as i64) && 3 * (b.min[2] as i64) <= s2 && s2 <= 3 * (
    b.max[2] as i64);
    proof {
        assert(centroid3(prims@, vertices@, p as int, 0) == s0);
        assert(centroid3(prims@, vertices@, p as int, 1) == s1);
        assert(centroid3(prims@, vertices@, p as int, 2) == s2);
        if r {
            assert forall|axis: int| 0 <= axis < 3 implies 3 * b.min[axis] <= #[trigger] centroid3(
                prims@,
                vertices@,
                p as int,
                axis,
            ) <= 3 * b.max[axis] by {
                if axis == 0 {
                } else if axis == 1 {
                } else {
                }
            }
        }
    }
    r
}

/// The centroid of every listed primitive lies in the tight box of the list.
proof fn lemma_centroids_in_tight(prims: Seq<Prim>, vertices: Seq<PrimVertex>, items: Seq<usize>, b: Bounds)
    requires
        b.tight(prims, vertices, items),
    ensures
        forall|j: int| 0 <= j < items.len() ==> #[trigger] centroid_in(b, prims, vertices, items[j] as int),
{
    assert forall|j: int| 0 <= j < items.len() implies #[trigger] centroid_in(b, prims, vertices, items[j] as int) by {
        assert forall|axis: int| 0 <= axis < 3 implies 3 * b.min[axis] <= #[trigger] centroid3(
            prims,
            vertices,
            items[j] as int,
            axis,
        ) <= 3 * b.max[axis] by {
            lemma_corner_in_box(prims, vertices, items, j, 0, axis);
            lemma_corner_in_box(prims, vertices, items, j, 1, axis);
            lemma_corner_in_box(prims, vertices, items, j, 2, axis);
            assert(b.min[axis] as int == min_of(prims, vertices, items, axis));
        }
    }
}

/// Two lists over the same set of items have the same tight box.
proof fn lemma_same_box(
    prims: Seq<Prim>,
    vertices: Seq<PrimVertex>,
    s1: Seq<usize>,
    s2: Seq<usize>,
    b: Bounds,
)
    requires
        s1.len() > 0,
        forall|x: usize| s1.contains(x) <==> s2.contains(x),
        b.tight(prims, vertices, s1),
    ensures
        b.tight(prims, vertices, s2),
{
    assert(s2.contains(s1[0]));
    assert forall|axis: int| 0 <= axis < 3 implies {
        &&& b.min[axis] as int == #[trigger] min_of(prims, vertices, s2, axis)
        &&& b.max[axis] as int == max_of(prims, vertices, s2, axis)
    } by {
        lemma_box_subset(prims, vertices, s1, s2, axis);
        lemma_box_subset(prims, vertices, s2, s1, axis);
    }
}

/// Splits the node over `items`, whose tight box is `bounds`, at the midpoint of
/// the longest side of `region` (the box still open to splitting, which starts
/// as `bounds` and narrows on each split that leaves one side empty).
fn split(
    items: Vec<usize>,
    bounds: Bounds,
    region: Bounds,
    eps: u32,
    prims: &Vec<Prim>,
    vertices: &Vec<PrimVertex>,
) -> (r: Aabb)
    requires
        prims_valid(prims@, vertices@),
        items_valid(prims@, items@),
        items@.len() > 0,
        bounds.tight(prims@, vertices@, items@),
        forall|j: int| 0 <= j < items@.len() ==> #[trigger] centroid_in(region, prims@, vertices@, items@[j] as int),
    ensures
        r.wf(prims@, vertices@),
        r.settled(eps as int, prims@, vertices@),
        r.leaf_items().to_multiset() == items@.to_multiset(),
        r.bounds == bounds,
        r.height() < items@.len(),
        r.node_count() < 2 * items@.len(),
    decreases items@.len(), extent(region),
{
    if items.len() <= LEAF_ITEMS {
        return Aabb { fst: None, snd: None, bounds, items };
    }
    let d0: i64 = region.max[0] as i64 - region.min[0] as i64;
    let d1: i64 = region.max[1] as i64 - region.min[1] as i64;
    let d2: i64 = region.max[2] as i64 - region.min[2] as i64;
    let axis: usize = if d0 >= d1 && d0 >= d2 {
        0
    } else if d1 >= d2 && d1 >= d0 {
        1
    } else {
        2
    };
    let d: i64 = if axis == 0 {
        d0
    } else if axis == 1 {
        d1
    } else {
        d2
    };
    if 2 * d < eps as i64 || d < 2 {
        let r = Aabb { fst: None, snd: None, bounds, items };
        proof {
            assert(too_small(region, eps as int)) by {
                assert forall|axis: int| 0 <= axis < 3 implies 2 * (region.max[axis] - region.min[axis]) < eps
                    || #[trigger] region.max[axis] - region.min[axis] < 2 by {
                    if axis == 0 {
                    } else if axis == 1 {
                    } else {
                    }
                }
            }
            assert(r.leaf_settled(eps as int, prims@, vertices@));
        }
        return r;
    }
    let mid: i32 = (region.min[axis] as i64 + d / 2) as i32;
    let fst_region = Bounds { min: region.min, max: with_axis(region.max, axis, mid) };
    let snd_region = Bounds { min: with_axis(region.min, axis, mid), max: region.max };
    let mut fst_items: Vec<usize> = Vec::new();
    let mut snd_items: Vec<usize> = Vec::new();
    let mut i: usize = 0;
    proof {
        assert(fst_items@ + snd_items@ =~= items@.take(0));
    }
    while i < items.len()
        invariant
            i <= items@.len(),
            prims_valid(prims@, vertices@),
            items_valid(prims@, items@),
            items_valid(prims@, fst_items@),
            items_valid(prims@, snd_items@),
            fst_items@.len() + snd_items@.len() == i,
            (fst_items@ + snd_items@).to_multiset() == items@.take(i as int).to_multiset(),
            forall|k: int| 0 <= k < fst_items@.len() ==> #[trigger] centroid_in(fst_region, prims@, vertices@, fst_items@[k] as int),
            forall|k: int| 0 <= k < snd_items@.len() ==> !#[trigger] centroid_in(fst_region, prims@, vertices@, snd_items@[k] as int),
        decreases items@.len() - i,
    {
        let p = items[i];
        proof {
            assert(prims@[p as int].indices[0] < vertices@.len());
            assert(prims@[p as int].indices[1] < vertices@.len());
            assert(prims@[p as int].indices[2] < vertices@.len());
        }
        let ghost f0 = fst_items@;
        let ghost s0 = snd_items@;
        if centroid_within(&fst_region, prims, vertices, p) {
            fst_items.push(p);
        } else {
            snd_items.push(p);
        }
        proof {
            broadcast use vstd::multiset::group_multiset_axioms;

            assert(items@.take(i + 1) =~= items@.take(i as int).push(p));
            to_multiset_build(items@.take(i as int), p);
            lemma_multiset_commutative(fst_items@, snd_items@);
            lemma_multiset_commutative(f0, s0);
            to_multiset_build(f0, p);
            to_multiset_build(s0, p);
            assert((fst_items@ + snd_items@).to_multiset() =~= items@.take(i + 1).to_multiset());
        }
        i = i + 1;
    }
    proof {
        assert(items@.take(i as int) =~= items@);
    }
    if fst_items.len() == 0 {
        proof {
            broadcast use to_multiset_contains;

            assert(fst_items@ + snd_items@ =~= snd_items@);
            assert forall|j: int| 0 <= j < items@.len() implies #[trigger] centroid_in(
                snd_region,
                prims@,
                vertices@,
                items@[j] as int,
            ) by {
                let x = items@[j];
                assert(items@.to_multiset().count(x) > 0);
                assert(snd_items@.contains(x));
                let k = choose|k: int| 0 <= k < snd_items@.len() && snd_items@[k] == x;
                assert(!centroid_in(fst_region, prims@, vertices@, snd_items@[k] as int));
                assert(centroid_in(region, prims@, vertices@, x as int));
                assert forall|ax: int| 0 <= ax < 3 implies 3 * snd_region.min[ax] <= #[trigger] centroid3(
                    prims@,
                    vertices@,
                    x as int,
                    ax,
                ) <= 3 * snd_region.max[ax] by {
                    if ax != axis {
                        assert(snd_region.min[ax] == region.min[ax]);
                    } else {
                        if !(3 * snd_region.min[ax] <= centroid3(prims@, vertices@, x as int, ax)) {
                            assert forall|ay: int| 0 <= ay < 3 implies 3 * fst_region.min[ay] <= #[trigger] centroid3(
                                prims@,
                                vertices@,
                                x as int,
                                ay,
                            ) <= 3 * fst_region.max[ay] by {
                                assert(3 * region.min[ay] <= centroid3(prims@, vertices@, x as int, ay) <= 3
                                    * region.max[ay]);
                            }
                        }
                    }
                }
            }
            assert(extent(snd_region) < extent(region)) by {
                if axis == 0 {
                } else if axis == 1 {
                } else {
                }
            }
        }
        split(items, bounds, snd_region, eps, prims, vertices)
    } else if snd_items.len() == 0 {
        proof {
            broadcast use to_multiset_contains;

            assert(fst_items@ + snd_items@ =~= fst_items@);
            assert forall|j: int| 0 <= j < items@.len() implies #[trigger] centroid_in(
                fst_region,
                prims@,
                vertices@,
                items@[j] as int,
            ) by {
                let x = items@[j];
                assert(items@.to_multiset().count(x) > 0);
                assert(fst_items@.contains(x));
                let k = choose|k: int| 0 <= k < fst_items@.len() && fst_items@[k] == x;
                assert(centroid_in(fst_region, prims@, vertices@, fst_items@[k] as int));
            }
            assert(extent(fst_region) < extent(region)) by {
                if axis == 0 {
                } else if axis == 1 {
                } else {
                }
            }
        }
        split(items, bounds, fst_region, eps, prims, vertices)
    } else {
        let ghost fs = fst_items@;
        let ghost ss = snd_items@;
        let fb = Bounds::new(&fst_items, prims, vertices);
        let sb = Bounds::new(&snd_items, prims, vertices);
        proof {
            lemma_centroids_in_tight(prims@, vertices@, fs, fb);
            lemma_centroids_in_tight(prims@, vertices@, ss, sb);
        }
        let a = split(fst_items, fb, fb, eps, prims, vertices);
        let b = split(snd_items, sb, sb, eps, prims, vertices);
        let ghost la = a.leaf_items();
        let ghost lb = b.leaf_items();
        let r = Aabb { fst: Some(Box::new(a)), snd: Some(Box::new(b)), bounds, items: Vec::new() };
        proof {
            broadcast use vstd::multiset::group_multiset_axioms;
            broadcast use to_multiset_contains;

            assert(r.leaf_items() == la + lb);
            lemma_multiset_commutative(la, lb);
            lemma_multiset_commutative(fs, ss);
            assert(r.leaf_items().to_multiset() =~= items@.to_multiset());
            assert forall|x: usize| fs.contains(x) implies items@.contains(x) by {
                assert((fs + ss).to_multiset().count(x) > 0);
            }
            assert forall|x: usize| ss.contains(x) implies items@.contains(x) by {
                assert((fs + ss).to_multiset().count(x) > 0);
            }
            assert forall|x: usize| items@.contains(x) <==> r.leaf_items().contains(x) by {
                assert(items@.to_multiset().count(x) == r.leaf_items().to_multiset().count(x));
            }
            lemma_same_box(prims@, vertices@, items@, r.leaf_items(), bounds);
            assert forall|axis: int| 0 <= axis < 3 implies bounds.min[axis] <= #[trigger] fb.min[axis]
                && fb.max[axis] <= bounds.max[axis] by {
                lemma_box_subset(prims@, vertices@, fs, items@, axis);
            }
            assert forall|axis: int| 0 <= axis < 3 implies bounds.min[axis] <= #[trigger] sb.min[axis]
                && sb.max[axis] <= bounds.max[axis] by {
                lemma_box_subset(prims@, vertices@, ss, items@, axis);
            }
            assert(r.items@.len() == 0);
        }
        r
    }
}

} // verus!
