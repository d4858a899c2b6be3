use vstd::prelude::*;

use crate::aabb::{items_valid, lemma_corner_in_box, Bounds};
use vstd::seq_lib::{to_multiset_build, to_multiset_contains, to_multiset_insert, to_multiset_len, to_multiset_remove};

use crate::geom::{corner, Prim, PrimVertex, Scene};
use crate::tree::{all_items, Aabb};

verus! {

/// One fixed-size record of the flattened hierarchy. A leaf has `item_count > 0`
/// and both child ids 0; an internal node has `item_count == 0` and the ids of
/// its two children. Its items are `indices[item_idx .. item_idx + item_count]`.
#[derive(Clone, Copy, Debug, PartialEq, Eq)]
pub struct AabbUniform {
    pub fst: u32,
    pub snd: u32,
    pub item_idx: u32,
    pub item_count: u32,
    pub bounds: Bounds,
}

/// The flattened hierarchy: node records, root first, and the primitive
/// indices that the leaves address by range.
#[derive(Debug)]
pub struct BvhData {
    pub uniforms: Vec<AabbUniform>,
    pub indices: Vec<u32>,
}

/// The items of every leaf under `node`, left to right, as 32-bit indices.
pub open spec fn flat_items(node: Aabb) -> Seq<u32> {
    node.leaf_items().map_values(|x: usize| x as u32)
}

/// The records that flattening emits for `node` when its own record gets id
/// `base` and its first item lands at `ibase`: the node, then the subtree of its
/// first child, then that of its second.
pub open spec fn flat_nodes(node: Aabb, base: int, ibase: int) -> Seq<AabbUniform>
    decreases node,
{
    match node.fst {
        Some(a) => match node.snd {
            Some(b) => seq![
                AabbUniform {
                    fst: (base + 1) as u32,
                    snd: (base + 1 + a.node_count()) as u32,
                    item_idx: ibase as u32,
                    item_count: 0,
                    bounds: node.bounds,
                },
            ] + flat_nodes(*a, base + 1, ibase) + flat_nodes(
                *b,
                base + 1 + a.node_count(),
                ibase + a.leaf_items().len(),
            ),
            None => flat_leaf(node, ibase),
        },
        None => flat_leaf(node, ibase),
    }
}

pub open spec fn flat_leaf(node: Aabb, ibase: int) -> Seq<AabbUniform> {
    seq![
        AabbUniform {
            fst: 0,
            snd: 0,
            item_idx: ibase as u32,
            item_count: node.items@.len() as u32,
            bounds: node.bounds,
        },
    ]
}

proof fn lemma_flat_len(node: Aabb, base: int, ibase: int)
    ensures
        flat_nodes(node, base, ibase).len() == node.node_count(),
    decreases node,
{
    match node.fst {
        Some(a) => match node.snd {
            Some(b) => {
                lemma_flat_len(*a, base + 1, ibase);
                lemma_flat_len(*b, base + 1 + a.node_count(), ibase + a.leaf_items().len());
            },
            None => {},
        },
        None => {},
    }
}

/// Every corner of primitive `p` lies in `b`, faces included.
pub open spec fn prim_in_box(b: Bounds, prims: Seq<Prim>, vertices: Seq<PrimVertex>, p: int) -> bool {
    forall|k: int, axis: int|
        0 <= k < 3 && 0 <= axis < 3 ==> b.min[axis] <= #[trigger] corner(prims, vertices, p, k, axis)
            <= b.max[axis]
}

impl BvhData {
    /// Record `i` is a leaf with a non-empty item range inside `indices` and both
    /// child ids 0, or an internal node whose two children come after it.
    pub open spec fn node_ok(self, i: int) -> bool {
        let u = self.uniforms@[i];
        if u.item_count > 0 {
            &&& u.fst == 0
            &&& u.snd == 0
            &&& u.item_idx + u.item_count <= self.indices@.len()
        } else {
            &&& i < u.fst < self.uniforms@.len()
            &&& i < u.snd < self.uniforms@.len()
        }
    }

    /// Structural well-formedness of the flattened records.
    pub open spec fn wf(self) -> bool {
        &&& self.uniforms@.len() >= 1
        &&& forall|i: int| 0 <= i < self.uniforms@.len() ==> #[trigger] self.node_ok(i)
    }

    /// The indices of every leaf under record `i`, left to right.
    pub open spec fn subtree(self, i: int) -> Seq<u32>
        decreases self.uniforms@.len() - i,
    {
        if 0 <= i < self.uniforms@.len() {
            let u = self.uniforms@[i];
            if u.item_count > 0 {
                self.indices@.subrange(u.item_idx as int, u.item_idx + u.item_count)
            } else if i < u.fst < self.uniforms@.len() && i < u.snd < self.uniforms@.len() {
                self.subtree(u.fst as int) + self.subtree(u.snd as int)
            } else {
                Seq::empty()
            }
        } else {
            Seq::empty()
        }
    }

    /// Record `i`'s box holds every corner of every primitive under it, and, for
    /// an internal record, the boxes of both children.
    pub open spec fn node_encloses(self, prims: Seq<Prim>, vertices: Seq<PrimVertex>, i: int) -> bool {
        let u = self.uniforms@[i];
        &&& forall|j: int|
            0 <= j < self.subtree(i).len() ==> #[trigger] prim_in_box(
                u.bounds,
                prims,
                vertices,
                self.subtree(i)[j] as int,
            )
        &&& u.item_count == 0 ==> u.bounds.encloses(self.uniforms@[u.fst as int].bounds)
            && u.bounds.encloses(self.uniforms@[u.snd as int].bounds)
    }

    pub open spec fn node_sound(self, prims: Seq<Prim>, vertices: Seq<PrimVertex>, i: int) -> bool {
        self.node_ok(i) && self.node_encloses(prims, vertices, i)
    }

    /// The records can be walked over `prims`: they are well-formed, every
    /// index names a primitive and lies under the root, and every box encloses
    /// what lies under it.
    pub open spec fn traversable(self, prims: Seq<Prim>, vertices: Seq<PrimVertex>) -> bool {
        &&& self.wf()
        &&& forall|j: int| 0 <= j < self.indices@.len() ==> (#[trigger] self.indices@[j]) < prims.len()
        &&& forall|j: int|
            0 <= j < self.indices@.len() ==> self.subtree(0).contains(#[trigger] self.indices@[j])
        &&& forall|i: int|
            0 <= i < self.uniforms@.len() ==> #[trigger] self.node_sound(prims, vertices, i)
    }

    /// The records are traversable over `prims`, and the root covers exactly
    /// the indices, in order.
    pub open spec fn valid_for(self, prims: Seq<Prim>, vertices: Seq<PrimVertex>) -> bool {
        &&& self.traversable(prims, vertices)
        &&& self.subtree(0) == self.indices@
    }
}

pub proof fn lemma_in_box_widen(b1: Bounds, b2: Bounds, prims: Seq<Prim>, vertices: Seq<PrimVertex>, p: int)
    requires
        prim_in_box(b1, prims, vertices, p),
        b2.encloses(b1),
    ensures
        prim_in_box(b2, prims, vertices, p),
{
    assert forall|k: int, axis: int| 0 <= k < 3 && 0 <= axis < 3 implies b2.min[axis]
        <= #[trigger] corner(prims, vertices, p, k, axis) <= b2.max[axis] by {
        assert(b1.min[axis] <= corner(prims, vertices, p, k, axis) <= b1.max[axis]);
        assert(b2.min[axis] <= b1.min[axis] && b1.max[axis] <= b2.max[axis]);
    }
}

/// The items under a well-formed node all name primitives.
pub proof fn lemma_leaf_items_valid(node: Aabb, prims: Seq<Prim>, vertices: Seq<PrimVertex>)
    requires
        node.wf(prims, vertices),
    ensures
        items_valid(prims, node.leaf_items()),
    decreases node,
{
    match node.fst {
        Some(a) => match node.snd {
            Some(b) => {
                lemma_leaf_items_valid(*a, prims, vertices);
                lemma_leaf_items_valid(*b, prims, vertices);
                assert forall|j: int| 0 <= j < node.leaf_items().len() implies (#[trigger] node.leaf_items()[j])
                    < prims.len() by {
                    if j < a.leaf_items().len() {
                        assert(node.leaf_items()[j] == a.leaf_items()[j]);
                    } else {
                        assert(node.leaf_items()[j] == b.leaf_items()[j - a.leaf_items().len()]);
                    }
                }
            },
            None => {},
        },
        None => {},
    }
}

/// Where the records and indices emitted for `node` sit at `base` and `ibase`,
/// each of those records is well-formed and encloses what lies under it, and
/// the record at `base` covers exactly the node's items.
proof fn lemma_ranges_join(
    data: BvhData,
    prims: Seq<Prim>,
    vertices: Seq<PrimVertex>,
    base: int,
    ca: int,
    cb: int,
)
    requires
        data.node_sound(prims, vertices, base),
        forall|i: int|
            base + 1 <= i < base + 1 + ca ==> #[trigger] data.node_sound(prims, vertices, i),
        forall|i: int|
            base + 1 + ca <= i < base + 1 + ca + cb ==> #[trigger] data.node_sound(prims, vertices, i),
    ensures
        forall|i: int|
            base <= i < base + 1 + ca + cb ==> #[trigger] data.node_sound(prims, vertices, i),
{
    assert forall|i: int| base <= i < base + 1 + ca + cb implies #[trigger] data.node_sound(prims, vertices, i) by {
        if i == base {
        } else if i < base + 1 + ca {
        } else {
        }
    }
}

proof fn lemma_flat_props(
    data: BvhData,
    node: Aabb,
    base: int,
    ibase: int,
    prims: Seq<Prim>,
    vertices: Seq<PrimVertex>,
)
    requires
        node.wf(prims, vertices),
        0 <= base,
        0 <= ibase,
        base + node.node_count() <= data.uniforms@.len() <= u32::MAX,
        ibase + node.leaf_items().len() <= data.indices@.len() <= u32::MAX,
        prims.len() <= u32::MAX,
        data.uniforms@.subrange(base, base + node.node_count()) == flat_nodes(node, base, ibase),
        data.indices@.subrange(ibase, ibase + node.leaf_items().len()) == flat_items(node),
    ensures
        data.subtree(base) == flat_items(node),
        data.uniforms@[base].bounds == node.bounds,
        forall|i: int|
            base <= i < base + node.node_count() ==> #[trigger] data.node_sound(prims, vertices, i),
    decreases node,
{
    lemma_flat_len(node, base, ibase);
    lemma_leaf_items_valid(node, prims, vertices);
    let li = node.leaf_items();
    assert(data.uniforms@[base] == flat_nodes(node, base, ibase)[0]);
    match node.fst {
        Some(a) => match node.snd {
            Some(b) => {
                let ca = a.node_count();
                let la = a.leaf_items().len();
                lemma_flat_len(*a, base + 1, ibase);
                lemma_flat_len(*b, base + 1 + ca, ibase + la);
                let fl = flat_nodes(node, base, ibase);
                let fa = flat_nodes(*a, base + 1, ibase);
                let fb = flat_nodes(*b, base + 1 + ca, ibase + la);
                let sa = data.uniforms@.subrange(base + 1, base + 1 + ca);
                let sb = data.uniforms@.subrange(base + 1 + ca, base + node.node_count());
                let whole = data.uniforms@.subrange(base, base + node.node_count());
                assert(fl == seq![fl[0]] + fa + fb);
                assert forall|t: int| 0 <= t < ca implies #[trigger] sa[t] == fa[t] by {
                    assert(sa[t] == whole[1 + t]);
                }
                assert(sa =~= fa);
                assert forall|t: int| 0 <= t < b.node_count() implies #[trigger] sb[t] == fb[t] by {
                    assert(sb[t] == whole[1 + ca + t]);
                }
                assert(sb =~= fb);
                let fi = flat_items(node);
                assert(fi =~= flat_items(*a) + flat_items(*b));
                let ia = data.indices@.subrange(ibase, ibase + la);
                let ib = data.indices@.subrange(ibase + la, ibase + li.len());
                let iw = data.indices@.subrange(ibase, ibase + li.len());
                assert forall|t: int| 0 <= t < la implies #[trigger] ia[t] == flat_items(*a)[t] by {
                    assert(ia[t] == iw[t]);
                }
                assert(ia =~= flat_items(*a));
                assert forall|t: int| 0 <= t < b.leaf_items().len() implies #[trigger] ib[t] == flat_items(
                    *b,
                )[t] by {
                    assert(ib[t] == iw[la + t]);
                }
                assert(ib =~= flat_items(*b));
                lemma_flat_props(data, *a, base + 1, ibase, prims, vertices);
                lemma_flat_props(data, *b, base + 1 + ca, ibase + la, prims, vertices);
                let u = data.uniforms@[base];
                assert(u.fst == base + 1 && u.snd == base + 1 + ca && u.item_count == 0);
                assert(data.subtree(base) == data.subtree(base + 1) + data.subtree(base + 1 + ca));
                assert(data.node_ok(base));
                assert forall|j: int| 0 <= j < data.subtree(base).len() implies #[trigger] prim_in_box(
                    u.bounds,
                    prims,
                    vertices,
                    data.subtree(base)[j] as int,
                ) by {
                    assert(data.node_sound(prims, vertices, base + 1));
                    assert(data.node_sound(prims, vertices, base + 1 + ca));
                    if j < data.subtree(base + 1).len() {
                        assert(data.subtree(base)[j] == data.subtree(base + 1)[j]);
                        lemma_in_box_widen(a.bounds, u.bounds, prims, vertices, data.subtree(base)[j] as int);
                    } else {
                        let t = j - data.subtree(base + 1).len();
                        assert(data.subtree(base)[j] == data.subtree(base + 1 + ca)[t]);
                        lemma_in_box_widen(b.bounds, u.bounds, prims, vertices, data.subtree(base)[j] as int);
                    }
                }
                assert(data.node_encloses(prims, vertices, base));
                assert(node.node_count() == 1 + ca + b.node_count());
                lemma_ranges_join(data, prims, vertices, base, ca as int, b.node_count() as int);
            },
            None => {
                lemma_flat_leaf(data, node, base, ibase, prims, vertices);
            },
        },
        None => {
            lemma_flat_leaf(data, node, base, ibase, prims, vertices);
        },
    }
}

proof fn lemma_flat_leaf(
    data: BvhData,
    node: Aabb,
    base: int,
    ibase: int,
    prims: Seq<Prim>,
    vertices: Seq<PrimVertex>,
)
    requires
        node.wf(prims, vertices),
        node.is_leaf(),
        0 <= base,
        0 <= ibase,
        base + 1 <= data.uniforms@.len() <= u32::MAX,
        ibase + node.leaf_items().len() <= data.indices@.len() <= u32::MAX,
        prims.len() <= u32::MAX,
        data.uniforms@[base] == flat_leaf(node, ibase)[0],
        data.indices@.subrange(ibase, ibase + node.leaf_items().len()) == flat_items(node),
    ensures
        data.subtree(base) == flat_items(node),
        forall|i: int|
            base <= i < base + node.node_count() ==> #[trigger] data.node_sound(prims, vertices, i),
{
    assert(node.node_count() == 1);
    let li = node.leaf_items();
    assert(li == node.items@);
    lemma_leaf_items_valid(node, prims, vertices);
    assert(data.subtree(base) == data.indices@.subrange(ibase, ibase + li.len()));
    let u = data.uniforms@[base];
    assert forall|j: int| 0 <= j < data.subtree(base).len() implies #[trigger] prim_in_box(
        u.bounds,
        prims,
        vertices,
        data.subtree(base)[j] as int,
    ) by {
        assert(data.subtree(base)[j] == flat_items(node)[j]);
        assert(li[j] < prims.len());
        assert(data.subtree(base)[j] as int == li[j] as int);
        assert forall|k: int, axis: int| 0 <= k < 3 && 0 <= axis < 3 implies u.bounds.min[axis]
            <= #[trigger] corner(prims, vertices, li[j] as int, k, axis) <= u.bounds.max[axis] by {
            lemma_corner_in_box(prims, vertices, li, j, k, axis);
        }
    }
    assert(data.node_ok(base));
    assert(data.node_encloses(prims, vertices, base));
}

impl BvhData {
    /// Flattens the hierarchy rooted at `aabb`: records in pre-order, the root
    /// at id 0, each leaf's items appended to `indices` as it is emitted.
    pub fn new(aabb: &Aabb) -> (r: BvhData)
        requires
            aabb.node_count() <= u32::MAX,
            aabb.leaf_items().len() <= u32::MAX,
            forall|j: int|
                0 <= j < aabb.leaf_items().len() ==> #[trigger] aabb.leaf_items()[j] <= u32::MAX,
        ensures
            r.uniforms@ == flat_nodes(*aabb, 0, 0),
            r.indices@ == flat_items(*aabb),
    {
        let mut data = BvhData { uniforms: Vec::new(), indices: Vec::new() };
        emit(&mut data, aabb);
        proof {
            assert(data.uniforms@ =~= flat_nodes(*aabb, 0, 0));
            assert(data.indices@ =~= flat_items(*aabb));
        }
        data
    }
}

/// The indices `0..n` as 32-bit values, in order.
pub open spec fn all_indices(n: nat) -> Seq<u32> {
    Seq::new(n, |i: int| i as u32)
}

/// Narrowing two lists that hold the same items yields two lists that hold the
/// same items.
proof fn lemma_narrow_perm(s1: Seq<usize>, s2: Seq<usize>)
    requires
        s1.to_multiset() == s2.to_multiset(),
    ensures
        s1.map_values(|x: usize| x as u32).to_multiset() == s2.map_values(|x: usize| x as u32).to_multiset(),
    decreases s1.len(),
{
    broadcast use vstd::multiset::group_multiset_axioms;

    to_multiset_len(s1);
    to_multiset_len(s2);
    let f = |x: usize| x as u32;
    if s1.len() == 0 {
        assert(s1.map_values(f) =~= Seq::<u32>::empty());
        assert(s2.map_values(f) =~= Seq::<u32>::empty());
    } else {
        let x = s1.last();
        let rest = s1.drop_last();
        assert(s1 =~= rest.push(x));
        to_multiset_build(rest, x);
        to_multiset_contains(s2, x);
        assert(s2.contains(x));
        let k = choose|k: int| 0 <= k < s2.len() && s2[k] == x;
        let s2r = s2.remove(k);
        to_multiset_remove(s2, k);
        assert(rest.to_multiset() =~= s2r.to_multiset());
        lemma_narrow_perm(rest, s2r);
        assert(s1.map_values(f) =~= rest.map_values(f).push(f(x)));
        to_multiset_build(rest.map_values(f), f(x));
        assert(s2.map_values(f) =~= s2r.map_values(f).insert(k, f(x)));
        to_multiset_insert(s2r.map_values(f), k, f(x));
    }
}

impl BvhData {
    /// Builds the hierarchy over the scene and flattens it. A scene with no
    /// primitives yields the placeholder: one leaf over the sentinel box that
    /// holds index 0.
    pub fn from_scene(eps: u32, scene: &Scene) -> (r: BvhData)
        requires
            scene.valid(),
        ensures
            match scene {
                Scene::Active { prims, vertices } if prims@.len() > 0 => {
                    &&& r.valid_for(prims@, vertices@)
                    &&& r.indices@.to_multiset() == all_indices(prims@.len()).to_multiset()
                    &&& r.uniforms@.len() < 2 * prims@.len()
                },
                _ => {
                    &&& r.uniforms@.len() == 1
                    &&& r.indices@ == seq![0u32]
                    &&& r.uniforms@[0].fst == 0 && r.uniforms@[0].snd == 0
                    &&& r.uniforms@[0].item_idx == 0 && r.uniforms@[0].item_count == 1
                    &&& r.uniforms@[0].bounds.is_sentinel()
                },
            },
    {
        let aabb = Aabb::from_scene(eps, scene);
        proof {
            match scene {
                Scene::Active { prims, vertices } if prims@.len() > 0 => {
                    let n = prims@.len();
                    assert forall|j: int| 0 <= j < aabb.leaf_items().len() implies #[trigger] aabb.leaf_items()[j]
                        < n by {
                        to_multiset_contains(aabb.leaf_items(), aabb.leaf_items()[j]);
                        to_multiset_contains(all_items(n), aabb.leaf_items()[j]);
                        assert(aabb.leaf_items().contains(aabb.leaf_items()[j]));
                    }
                    to_multiset_len(aabb.leaf_items());
                    to_multiset_len(all_items(n));
                },
                _ => {
                    assert(aabb.node_count() == 1);
                    assert(aabb.leaf_items() == seq![0usize]);
                },
            }
        }
        let r = BvhData::new(&aabb);
        proof {
            match scene {
                Scene::Active { prims, vertices } if prims@.len() > 0 => {
                    let n = prims@.len();
                    lemma_flat_len(aabb, 0, 0);
                    assert(r.uniforms@.subrange(0, aabb.node_count() as int) =~= r.uniforms@);
                    assert(r.indices@.subrange(0, aabb.leaf_items().len() as int) =~= r.indices@);
                    lemma_flat_props(r, aabb, 0, 0, prims@, vertices@);
                    lemma_narrow_perm(aabb.leaf_items(), all_items(n));
                    assert(all_items(n).map_values(|x: usize| x as u32) =~= all_indices(n));
                    lemma_leaf_items_valid(aabb, prims@, vertices@);
                    assert forall|i: int| 0 <= i < r.uniforms@.len() implies #[trigger] r.node_ok(i) by {
                        assert(r.node_sound(prims@, vertices@, i));
                    }
                    assert forall|j: int| 0 <= j < r.indices@.len() implies (#[trigger] r.indices@[j])
                        < prims@.len() by {
                        assert(aabb.leaf_items()[j] < prims@.len());
                    }
                    assert(r.wf());
                    assert forall|j: int| 0 <= j < r.indices@.len() implies r.subtree(0).contains(
                        #[trigger] r.indices@[j],
                    ) by {
                        assert(r.subtree(0)[j] == r.indices@[j]);
                    }
                    assert(r.indices@.to_multiset() == all_indices(n).to_multiset());

                },
                _ => {
                    assert(r.indices@ =~= seq![0u32]);
                },
            }
        }
        r
    }
}

fn emit(data: &mut BvhData, node: &Aabb)
    requires
        old(data).uniforms@.len() + node.node_count() <= u32::MAX,
        old(data).indices@.len() + node.leaf_items().len() <= u32::MAX,
        forall|j: int|
            0 <= j < node.leaf_items().len() ==> #[trigger] node.leaf_items()[j] <= u32::MAX,
    ensures
        final(data).uniforms@ == old(data).uniforms@ + flat_nodes(
            *node,
            old(data).uniforms@.len() as int,
            old(data).indices@.len() as int,
        ),
        final(data).indices@ == old(data).indices@ + flat_items(*node),
    decreases node,
{
    let id = data.uniforms.len();
    let idx = data.indices.len();
    proof {
        lemma_flat_len(*node, id as int, idx as int);
    }
    match (&node.fst, &node.snd) {
        (Some(a), Some(b)) => {
            let ghost u0 = data.uniforms@;
            let ghost i0 = data.indices@;
            data.uniforms.push(
                AabbUniform { fst: 0, snd: 0, item_idx: idx as u32, item_count: 0, bounds: node.bounds },
            );
            let fst = data.uniforms.len();
            proof {
                lemma_flat_len(**a, id + 1, idx as int);
                assert(node.leaf_items() == a.leaf_items() + b.leaf_items());
                assert forall|j: int| 0 <= j < a.leaf_items().len() implies #[trigger] a.leaf_items()[j] <= u32::MAX by {
                    assert(node.leaf_items()[j] == a.leaf_items()[j]);
                }
                assert forall|j: int| 0 <= j < b.leaf_items().len() implies #[trigger] b.leaf_items()[j] <= u32::MAX by {
                    assert(node.leaf_items()[a.leaf_items().len() + j] == b.leaf_items()[j]);
                }
            }
            emit(data, a);
            let snd = data.uniforms.len();
            emit(data, b);
            data.uniforms[id] = AabbUniform {
                fst: fst as u32,
                snd: snd as u32,
                item_idx: idx as u32,
                item_count: 0,
                bounds: node.bounds,
            };
            proof {
                assert(data.uniforms@ =~= u0 + flat_nodes(*node, id as int, idx as int));
                assert(flat_items(*node) =~= flat_items(**a) + flat_items(**b));
                assert(data.indices@ =~= i0 + flat_items(*node));
            }
        },
        _ => {
            let ghost i0 = data.indices@;
            let count = node.items.len();
            data.uniforms.push(
                AabbUniform {
                    fst: 0,
                    snd: 0,
                    item_idx: idx as u32,
                    item_count: count as u32,
                    bounds: node.bounds,
                },
            );
            let ghost u1 = data.uniforms@;
            let mut k: usize = 0;
            while k < count
                invariant
                    data.uniforms@ == u1,
                    k <= count,
                    count == node.items@.len(),
                    node.leaf_items() == node.items@,
                    forall|j: int| 0 <= j < count ==> #[trigger] node.items@[j] <= u32::MAX,
                    data.indices@ == i0 + node.items@.take(k as int).map_values(|x: usize| x as u32),
                decreases count - k,
            {
                data.indices.push(node.items[k] as u32);
                proof {
                    assert(node.items@.take(k + 1).map_values(|x: usize| x as u32) =~= node.items@.take(
                        k as int,
                    ).map_values(|x: usize| x as u32).push(node.items@[k as int] as u32));
                }
                k = k + 1;
            }
            proof {
                assert(node.items@.take(k as int) =~= node.items@);
                assert(flat_nodes(*node, id as int, idx as int) == flat_leaf(*node, idx as int));
                assert(data.uniforms@ =~= old(data).uniforms@ + flat_nodes(*node, id as int, idx as int));
            }
        },
    }
}

} // verus!
