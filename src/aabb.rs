use vstd::prelude::*;
use vstd::math::{max, min};

use crate::geom::{corner, prims_valid, Prim, PrimVertex};

verus! {

/// Smallest coordinate of primitive `p` along `axis`.
pub open spec fn prim_min(prims: Seq<Prim>, vertices: Seq<PrimVertex>, p: int, axis: int) -> int {
    min(
        min(corner(prims, vertices, p, 0, axis), corner(prims, vertices, p, 1, axis)),
        corner(prims, vertices, p, 2, axis),
    )
}

/// Largest coordinate of primitive `p` along `axis`.
pub open spec fn prim_max(prims: Seq<Prim>, vertices: Seq<PrimVertex>, p: int, axis: int) -> int {
    max(
        max(corner(prims, vertices, p, 0, axis), corner(prims, vertices, p, 1, axis)),
        corner(prims, vertices, p, 2, axis),
    )
}

/// Smallest coordinate along `axis` over every corner of the listed primitives;
/// `i32::MAX` when the list is empty.
pub open spec fn min_of(
    prims: Seq<Prim>,
    vertices: Seq<PrimVertex>,
    items: Seq<usize>,
    axis: int,
) -> int
    decreases items.len(),
{
    if items.len() == 0 {
        i32::MAX as int
    } else {
        min(
            min_of(prims, vertices, items.drop_last(), axis),
            prim_min(prims, vertices, items.last() as int, axis),
        )
    }
}

/// Largest coordinate along `axis` over every corner of the listed primitives;
/// `i32::MIN` when the list is empty.
pub open spec fn max_of(
    prims: Seq<Prim>,
    vertices: Seq<PrimVertex>,
    items: Seq<usize>,
    axis: int,
) -> int
    decreases items.len(),
{
    if items.len() == 0 {
        i32::MIN as int
    } else {
        max(
            max_of(prims, vertices, items.drop_last(), axis),
            prim_max(prims, vertices, items.last() as int, axis),
        )
    }
}

/// Every listed item names an existing primitive.
pub open spec fn items_valid(prims: Seq<Prim>, items: Seq<usize>) -> bool {
    forall|j: int| 0 <= j < items.len() ==> (#[trigger] items[j]) < prims.len()
}

/// An axis-aligned box, inclusive on both faces. A box over no geometry is the
/// inverted sentinel: `min` all `i32::MAX`, `max` all `i32::MIN`.
#[derive(Clone, Copy, Debug, PartialEq, Eq)]
pub struct Bounds {
    pub min: [i32; 3],
    pub max: [i32; 3],
}

impl Bounds {
    /// The box is the tight box of the listed primitives' corners.
    pub open spec fn tight(
        self,
        prims: Seq<Prim>,
        vertices: Seq<PrimVertex>,
        items: Seq<usize>,
    ) -> bool {
        forall|axis: int|
            0 <= axis < 3 ==> {
                &&& self.min[axis] as int == #[trigger] min_of(prims, vertices, items, axis)
                &&& self.max[axis] as int == max_of(prims, vertices, items, axis)
            }
    }

    /// `other` lies within this box, faces included.
    pub open spec fn encloses(self, other: Bounds) -> bool {
        forall|axis: int|
            0 <= axis < 3 ==> self.min[axis] <= #[trigger] other.min[axis] && other.max[axis]
                <= self.max[axis]
    }

    /// The inverted sentinel box.
    pub open spec fn is_sentinel(self) -> bool {
        forall|axis: int|
            0 <= axis < 3 ==> #[trigger] self.min[axis] == i32::MAX && self.max[axis] == i32::MIN
    }

    /// The tight box over every corner of the listed primitives.
    pub fn new(items: &Vec<usize>, prims: &Vec<Prim>, vertices: &Vec<PrimVertex>) -> (r: Bounds)
        requires
            prims_valid(prims@, vertices@),
            items_valid(prims@, items@),
        ensures
            r.tight(prims@, vertices@, items@),
    {
        let mut lo: [i32; 3] = [i32::MAX, i32::MAX, i32::MAX];
        let mut hi: [i32; 3] = [i32::MIN, i32::MIN, i32::MIN];
        let mut i: usize = 0;
        while i < items.len()
            invariant
                i <= items.len(),
                prims_valid(prims@, vertices@),
                items_valid(prims@, items@),
                forall|axis: int|
                    0 <= axis < 3 ==> {
                        &&& lo[axis] as int == #[trigger] min_of(
                            prims@,
                            vertices@,
                            items@.take(i as int),
                            axis,
                        )
                        &&& hi[axis] as int == max_of(prims@, vertices@, items@.take(i as int), axis)
                    },
            decreases items.len() - i,
        {
            let p = prims[items[i]];
            proof {
                assert(items@.take(i + 1).drop_last() =~= items@.take(i as int));
                assert(items@.take(i + 1).last() == items@[i as int]);
                assert(p.indices[0] < vertices.len() && p.indices[1] < vertices.len()
                    && p.indices[2] < vertices.len()) by {
                    assert(prims@[items@[i as int] as int].indices[0] < vertices@.len());
                    assert(prims@[items@[i as int] as int].indices[1] < vertices@.len());
                    assert(prims@[items@[i as int] as int].indices[2] < vertices@.len());
                }
            }
            let a = vertices[p.indices[0] as usize].pos;
            let b = vertices[p.indices[1] as usize].pos;
            let c = vertices[p.indices[2] as usize].pos;
            lo = [
                least(lo[0], a[0], b[0], c[0]),
                least(lo[1], a[1], b[1], c[1]),
                least(lo[2], a[2], b[2], c[2]),
            ];
            hi = [
                greatest(hi[0], a[0], b[0], c[0]),
                greatest(hi[1], a[1], b[1], c[1]),
                greatest(hi[2], a[2], b[2], c[2]),
            ];
            proof {
                let q = items@[i as int] as int;
                let t = items@.take(i + 1);
                assert forall|axis: int| 0 <= axis < 3 implies {
                    &&& lo[axis] as int == #[trigger] min_of(prims@, vertices@, t, axis)
                    &&& hi[axis] as int == max_of(prims@, vertices@, t, axis)
                } by {
                    assert(a[axis] as int == corner(prims@, vertices@, q, 0, axis));
                    assert(b[axis] as int == corner(prims@, vertices@, q, 1, axis));
                    assert(c[axis] as int == corner(prims@, vertices@, q, 2, axis));
                    assert(t.len() > 0);
                    assert(min_of(prims@, vertices@, t, axis) == min(min_of(prims@, vertices@, t.drop_last(), axis), prim_min(prims@, vertices@, q, axis)));
                }
            }
            i = i + 1;
        }
        let r = Bounds { min: lo, max: hi };
        proof {
            assert(items@.take(i as int) =~= items@);
            assert forall|axis: int| 0 <= axis < 3 implies {
                &&& r.min[axis] as int == #[trigger] min_of(prims@, vertices@, items@, axis)
                &&& r.max[axis] as int == max_of(prims@, vertices@, items@, axis)
            } by {
                assert(lo[axis] as int == min_of(prims@, vertices@, items@.take(i as int), axis));
            }
            assert(r.tight(prims@, vertices@, items@));
        }
        r
    }

    /// `point` lies in the box, faces included.
    pub fn contains(&self, point: [i32; 3]) -> (r: bool)
        ensures
            r == (self.min[0] <= point[0] <= self.max[0] && self.min[1] <= point[1]
                <= self.max[1] && self.min[2] <= point[2] <= self.max[2]),
    {
        self.min[0] <= point[0] && point[0] <= self.max[0] && self.min[1] <= point[1] && point[1]
            <= self.max[1] && self.min[2] <= point[2] && point[2] <= self.max[2]
    }
}

fn least(acc: i32, a: i32, b: i32, c: i32) -> (r: i32)
    ensures
        r == min(acc as int, min(min(a as int, b as int), c as int)),
{
    let mut r = acc;
    if a < r {
        r = a;
    }
    if b < r {
        r = b;
    }
    if c < r {
        r = c;
    }
    r
}

fn greatest(acc: i32, a: i32, b: i32, c: i32) -> (r: i32)
    ensures
        r == max(acc as int, max(max(a as int, b as int), c as int)),
{
    let mut r = acc;
    if a > r {
        r = a;
    }
    if b > r {
        r = b;
    }
    if c > r {
        r = c;
    }
    r
}

/// Every corner of every listed primitive lies between `min_of` and `max_of`.
pub proof fn lemma_corner_in_box(
    prims: Seq<Prim>,
    vertices: Seq<PrimVertex>,
    items: Seq<usize>,
    j: int,
    k: int,
    axis: int,
)
    requires
        0 <= j < items.len(),
        0 <= k < 3,
    ensures
        min_of(prims, vertices, items, axis) <= corner(prims, vertices, items[j] as int, k, axis)
            <= max_of(prims, vertices, items, axis),
    decreases items.len(),
{
    if j < items.len() - 1 {
        lemma_corner_in_box(prims, vertices, items.drop_last(), j, k, axis);
    }
}

/// Over a non-empty list, `min_of` and `max_of` are reached by some listed primitive.
proof fn lemma_box_attained(
    prims: Seq<Prim>,
    vertices: Seq<PrimVertex>,
    items: Seq<usize>,
    axis: int,
)
    requires
        items.len() > 0,
    ensures
        exists|j: int|
            0 <= j < items.len() && #[trigger] prim_min(prims, vertices, items[j] as int, axis)
                == min_of(prims, vertices, items, axis),
        exists|j: int|
            0 <= j < items.len() && #[trigger] prim_max(prims, vertices, items[j] as int, axis)
                == max_of(prims, vertices, items, axis),
    decreases items.len(),
{
    let last = items.len() - 1;
    if items.len() == 1 {
        assert(prim_min(prims, vertices, items[last] as int, axis) == min_of(prims, vertices, items, axis));
        assert(prim_max(prims, vertices, items[last] as int, axis) == max_of(prims, vertices, items, axis));
    } else {
        let rest = items.drop_last();
        lemma_box_attained(prims, vertices, rest, axis);
        let j1 = choose|j: int|
            0 <= j < rest.len() && #[trigger] prim_min(prims, vertices, rest[j] as int, axis)
                == min_of(prims, vertices, rest, axis);
        let j2 = choose|j: int|
            0 <= j < rest.len() && #[trigger] prim_max(prims, vertices, rest[j] as int, axis)
                == max_of(prims, vertices, rest, axis);
        assert(rest[j1] == items[j1]);
        assert(rest[j2] == items[j2]);
        if prim_min(prims, vertices, items[last] as int, axis) <= min_of(prims, vertices, rest, axis) {
            assert(prim_min(prims, vertices, items[last] as int, axis) == min_of(prims, vertices, items, axis));
        } else {
            assert(prim_min(prims, vertices, items[j1] as int, axis) == min_of(prims, vertices, items, axis));
        }
        if prim_max(prims, vertices, items[last] as int, axis) >= max_of(prims, vertices, rest, axis) {
            assert(prim_max(prims, vertices, items[last] as int, axis) == max_of(prims, vertices, items, axis));
        } else {
            assert(prim_max(prims, vertices, items[j2] as int, axis) == max_of(prims, vertices, items, axis));
        }
    }
}

/// The box of a list lies within the box of any list that holds all of its items.
pub proof fn lemma_box_subset(
    prims: Seq<Prim>,
    vertices: Seq<PrimVertex>,
    sub: Seq<usize>,
    sup: Seq<usize>,
    axis: int,
)
    requires
        sub.len() > 0,
        forall|x: usize| sub.contains(x) ==> sup.contains(x),
    ensures
        min_of(prims, vertices, sup, axis) <= min_of(prims, vertices, sub, axis),
        max_of(prims, vertices, sub, axis) <= max_of(prims, vertices, sup, axis),
{
    lemma_box_attained(prims, vertices, sub, axis);
    let j1 = choose|j: int|
        0 <= j < sub.len() && #[trigger] prim_min(prims, vertices, sub[j] as int, axis) == min_of(
            prims,
            vertices,
            sub,
            axis,
        );
    let j2 = choose|j: int|
        0 <= j < sub.len() && #[trigger] prim_max(prims, vertices, sub[j] as int, axis) == max_of(
            prims,
            vertices,
            sub,
            axis,
        );
    assert(sub.contains(sub[j1]));
    assert(sub.contains(sub[j2]));
    let i1 = choose|i: int| 0 <= i < sup.len() && sup[i] == sub[j1];
    let i2 = choose|i: int| 0 <= i < sup.len() && sup[i] == sub[j2];
    lemma_corner_in_box(prims, vertices, sup, i1, 0, axis);
    lemma_corner_in_box(prims, vertices, sup, i1, 1, axis);
    lemma_corner_in_box(prims, vertices, sup, i1, 2, axis);
    lemma_corner_in_box(prims, vertices, sup, i2, 0, axis);
    lemma_corner_in_box(prims, vertices, sup, i2, 1, axis);
    lemma_corner_in_box(prims, vertices, sup, i2, 2, axis);
}

} // verus!
