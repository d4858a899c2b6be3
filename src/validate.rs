use vstd::prelude::*;

use crate::aabb::Bounds;
use crate::data::{lemma_in_box_widen, prim_in_box, BvhData};
use crate::geom::{corner, prims_valid, Prim, PrimVertex};
use crate::handlers::all_prims;

verus! {

impl BvhData {
    /// Record `i`'s own box check: a leaf's box holds every corner of its
    /// primitives; an internal record's box holds both children's boxes.
    pub open spec fn local_ok(self, prims: Seq<Prim>, vertices: Seq<PrimVertex>, i: int) -> bool {
        let u = self.uniforms@[i];
        if u.item_count > 0 {
            forall|j: int|
                u.item_idx <= j < u.item_idx + u.item_count ==> #[trigger] prim_in_box(
                    u.bounds,
                    prims,
                    vertices,
                    self.indices@[j] as int,
                )
        } else {
            u.bounds.encloses(self.uniforms@[u.fst as int].bounds) && u.bounds.encloses(
                self.uniforms@[u.snd as int].bounds,
            )
        }
    }
}

/// Where every record passes its own box check, every record's box encloses
/// all that lies under it.
proof fn lemma_local_to_subtree(data: BvhData, prims: Seq<Prim>, vertices: Seq<PrimVertex>, i: int)
    requires
        data.wf(),
        forall|k: int| 0 <= k < data.uniforms@.len() ==> #[trigger] data.local_ok(prims, vertices, k),
        0 <= i < data.uniforms@.len(),
    ensures
        data.node_encloses(prims, vertices, i),
    decreases data.uniforms@.len() - i,
{
    let u = data.uniforms@[i];
    assert(data.node_ok(i));
    assert(data.local_ok(prims, vertices, i));
    if u.item_count > 0 {
        assert forall|j: int| 0 <= j < data.subtree(i).len() implies #[trigger] prim_in_box(
            u.bounds,
            prims,
            vertices,
            data.subtree(i)[j] as int,
        ) by {
            assert(data.subtree(i)[j] == data.indices@[u.item_idx + j]);
        }
    } else {
        let f = u.fst as int;
        let s = u.snd as int;
        lemma_local_to_subtree(data, prims, vertices, f);
        lemma_local_to_subtree(data, prims, vertices, s);
        assert(data.subtree(i) == data.subtree(f) + data.subtree(s));
        assert forall|j: int| 0 <= j < data.subtree(i).len() implies #[trigger] prim_in_box(
            u.bounds,
            prims,
            vertices,
            data.subtree(i)[j] as int,
        ) by {
            let lf = data.subtree(f).len();
            if j < lf {
                assert(data.subtree(i)[j] == data.subtree(f)[j]);
                lemma_in_box_widen(data.uniforms@[f].bounds, u.bounds, prims, vertices, data.subtree(i)[j] as int);
            } else {
                assert(data.subtree(i)[j] == data.subtree(s)[j - lf]);
                lemma_in_box_widen(data.uniforms@[s].bounds, u.bounds, prims, vertices, data.subtree(i)[j] as int);
            }
        }
    }
}

/// Whether every corner of primitive `p` lies in `b`.
fn prim_inside(b: &Bounds, prims: &Vec<Prim>, vertices: &Vec<PrimVertex>, p: usize) -> (r: bool)
    requires
        p < prims@.len(),
        prims_valid(prims@, vertices@),
    ensures
        r == prim_in_box(*b, prims@, vertices@, p as int),
{
    let prim = prims[p];
    proof {
        assert(prims@[p as int].indices[0] < vertices@.len());
        assert(prims@[p as int].indices[1] < vertices@.len());
        assert(prims@[p as int].indices[2] < vertices@.len());
    }
    let mut k: usize = 0;
    while k < 3
        invariant
            k <= 3,
            prim == prims@[p as int],
            prims_valid(prims@, vertices@),
            p < prims@.len(),
            forall|kk: int, axis: int|
                0 <= kk < k && 0 <= axis < 3 ==> b.min[axis] <= #[trigger] corner(
                    prims@,
                    vertices@,
                    p as int,
                    kk,
                    axis,
                ) <= b.max[axis],
        decreases 3 - k,
    {
        proof {
            assert(prims@[p as int].indices[k as int] < vertices@.len());
        }
        let pos = vertices[prim.indices[k] as usize].pos;
        if !(b.min[0] <= pos[0] && pos[0] <= b.max[0] && b.min[1] <= pos[1] && pos[1] <= b.max[1]
            && b.min[2] <= pos[2] && pos[2] <= b.max[2]) {
            proof {
                if b.min[0] > pos[0] || pos[0] > b.max[0] {
                    assert(!(b.min[0] <= corner(prims@, vertices@, p as int, k as int, 0) <= b.max[0]));
                } else if b.min[1] > pos[1] || pos[1] > b.max[1] {
                    assert(!(b.min[1] <= corner(prims@, vertices@, p as int, k as int, 1) <= b.max[1]));
                } else {
                    assert(!(b.min[2] <= corner(prims@, vertices@, p as int, k as int, 2) <= b.max[2]));
                }
            }
            return false;
        }
        proof {
            assert forall|kk: int, axis: int|
                0 <= kk < k + 1 && 0 <= axis < 3 implies b.min[axis] <= #[trigger] corner(
                prims@,
                vertices@,
                p as int,
                kk,
                axis,
            ) <= b.max[axis] by {
                if kk == k {
                    if axis == 0 {
                    } else if axis == 1 {
                    } else {
                    }
                }
            }
        }
        k = k + 1;
    }
    true
}

fn encloses_exec(a: &Bounds, b: &Bounds) -> (r: bool)
    ensures
        r == a.encloses(*b),
{
    let r = a.min[0] <= b.min[0] && b.max[0] <= a.max[0] && a.min[1] <= b.min[1] && b.max[1] <= a.max[1]
        && a.min[2] <= b.min[2] && b.max[2] <= a.max[2];
    proof {
        if r {
            assert forall|axis: int| 0 <= axis < 3 implies a.min[axis] <= #[trigger] b.min[axis] && b.max[axis]
                <= a.max[axis] by {
                if axis == 0 {
                } else if axis == 1 {
                } else {
                }
            }
        } else {
            if !(a.min[0] <= b.min[0] && b.max[0] <= a.max[0]) {
                assert(!(a.min[0] <= b.min[0] && b.max[0] <= a.max[0]));
            } else if !(a.min[1] <= b.min[1] && b.max[1] <= a.max[1]) {
                assert(!(a.min[1] <= b.min[1] && b.max[1] <= a.max[1]));
            } else {
                assert(!(a.min[2] <= b.min[2] && b.max[2] <= a.max[2]));
            }
        }
    }
    r
}

impl BvhData {
    /// Whether the records can be walked over the scene's primitives and name
    /// each of them: `true` only where they are traversable over `prims` and
    /// their indices name exactly the primitives `0..prims.len()`.
    pub fn check_for(&self, prims: &Vec<Prim>, vertices: &Vec<PrimVertex>) -> (r: bool)
        requires
            prims_valid(prims@, vertices@),
            prims@.len() <= u32::MAX,
        ensures
            r == (self.traversable(prims@, vertices@) && self.item_set() == all_prims(prims@.len())),
    {
        let us = &self.uniforms;
        let is = &self.indices;
        let n = prims.len();
        let m = us.len();
        let ni = is.len();
        if m == 0 {
            return false;
        }
        // every record is a proper leaf or internal record
        let mut i: usize = 0;
        while i < m
            invariant
                m == self.uniforms@.len(),
                ni == self.indices@.len(),
                us == &self.uniforms,
                i <= m,
                forall|k: int| 0 <= k < i ==> #[trigger] self.node_ok(k),
            decreases m - i,
        {
            let u = us[i];
            if u.item_count > 0 {
                if !(u.fst == 0 && u.snd == 0 && u.item_idx as u64 + u.item_count as u64 <= ni as u64) {
                    proof {
                        assert(!self.node_ok(i as int));
                    }
                    return false;
                }
            } else {
                if !(i < u.fst as usize && (u.fst as usize) < m && i < u.snd as usize && (u.snd as usize) < m) {
                    proof {
                        assert(!self.node_ok(i as int));
                    }
                    return false;
                }
            }
            i = i + 1;
        }
        // every index names a primitive
        let mut j: usize = 0;
        while j < ni
            invariant
                ni == self.indices@.len(),
                is == &self.indices,
                n == prims@.len(),
                j <= ni,
                forall|k: int| 0 <= k < j ==> (#[trigger] self.indices@[k]) < n,
            decreases ni - j,
        {
            if is[j] as usize >= n {
                proof {
                    assert(!(self.indices@[j as int] < n));
                }
                return false;
            }
            j = j + 1;
        }
        // every record's own box check
        let mut i: usize = 0;
        while i < m
            invariant
                m == self.uniforms@.len(),
                ni == self.indices@.len(),
                n == prims@.len(),
                us == &self.uniforms,
                is == &self.indices,
                prims_valid(prims@, vertices@),
                self.wf(),
                forall|k: int| 0 <= k < ni ==> (#[trigger] self.indices@[k]) < n,
                i <= m,
                forall|k: int| 0 <= k < i ==> #[trigger] self.local_ok(prims@, vertices@, k),
            decreases m - i,
        {
            let u = us[i];
            proof {
                assert(self.node_ok(i as int));
            }
            if u.item_count > 0 {
                let start = u.item_idx as usize;
                let end = u.item_idx as usize + u.item_count as usize;
                let mut j: usize = start;
                while j < end
                    invariant
                        ni == self.indices@.len(),
                        n == prims@.len(),
                        is == &self.indices,
                        m == self.uniforms@.len(),
                        i < m,
                        u == self.uniforms@[i as int],
                        prims_valid(prims@, vertices@),
                        forall|k: int| 0 <= k < ni ==> (#[trigger] self.indices@[k]) < n,
                        start == u.item_idx,
                        end == u.item_idx + u.item_count,
                        end <= ni,
                        start <= j <= end,
                        forall|k: int| start <= k < j ==> #[trigger] prim_in_box(
                            u.bounds,
                            prims@,
                            vertices@,
                            self.indices@[k] as int,
                        ),
                    decreases end - j,
                {
                    if !prim_inside(&u.bounds, prims, vertices, is[j] as usize) {
                        proof {
                            assert(!self.node_sound(prims@, vertices@, i as int)) by {
                                assert(self.subtree(i as int)[j - start] == self.indices@[j as int]);
                                assert(!prim_in_box(
                                    u.bounds,
                                    prims@,
                                    vertices@,
                                    self.subtree(i as int)[j - start] as int,
                                ));
                            }
                        }
                        return false;
                    }
                    j = j + 1;
                }
                proof {
                    assert(u == self.uniforms@[i as int]);
                    assert(self.local_ok(prims@, vertices@, i as int));
                }
            } else {
                if !(encloses_exec(&u.bounds, &us[u.fst as usize].bounds) && encloses_exec(
                    &u.bounds,
                    &us[u.snd as usize].bounds,
                )) {
                    proof {
                        assert(!self.node_sound(prims@, vertices@, i as int));
                    }
                    return false;
                }
            }
            i = i + 1;
        }
        proof {
            assert forall|k: int| 0 <= k < m implies #[trigger] self.node_sound(prims@, vertices@, k) by {
                lemma_local_to_subtree(*self, prims@, vertices@, k);
                assert(self.node_ok(k));
            }
        }
        // every index lies under the root
        if !self.covered(n) {
            return false;
        }
        // every primitive is named by some index
        let mut present: Vec<bool> = Vec::new();
        let mut p: usize = 0;
        while p < n
            invariant
                p <= n,
                present@.len() == p,
                forall|q: int| 0 <= q < p ==> !(#[trigger] present@[q]),
            decreases n - p,
        {
            present.push(false);
            p = p + 1;
        }
        let mut j: usize = 0;
        while j < ni
            invariant
                ni == self.indices@.len(),
                is == &self.indices,
                n == prims@.len(),
                present@.len() == n,
                forall|k: int| 0 <= k < ni ==> (#[trigger] self.indices@[k]) < n,
                j <= ni,
                forall|q: int| 0 <= q < n && #[trigger] present@[q] ==> self.item_set().contains(q),
                forall|k: int| 0 <= k < j ==> #[trigger] present@[self.indices@[k] as int],
            decreases ni - j,
        {
            let q = is[j] as usize;
            present.set(q, true);
            proof {
                assert forall|x: int| 0 <= x < n && #[trigger] present@[x] implies self.item_set().contains(x) by {
                    if x == q as int {
                        assert(self.indices@[j as int] as int == x);
                    }
                }
            }
            j = j + 1;
        }
        let mut p: usize = 0;
        while p < n
            invariant
                present@.len() == n,
                n == prims@.len(),
                ni == self.indices@.len(),
                forall|k: int| 0 <= k < ni ==> (#[trigger] self.indices@[k]) < n,
                forall|k: int| 0 <= k < ni ==> #[trigger] present@[self.indices@[k] as int],
                p <= n,
                forall|q: int| 0 <= q < n && #[trigger] present@[q] ==> self.item_set().contains(q),
                forall|q: int| 0 <= q < p ==> #[trigger] self.item_set().contains(q),
            decreases n - p,
        {
            if !present[p] {
                proof {
                    assert(!self.item_set().contains(p as int)) by {
                        if self.item_set().contains(p as int) {
                            let j = choose|j: int| 0 <= j < self.indices@.len() && self.indices@[j] as int == p as int;
                            assert(present@[self.indices@[j] as int]);
                        }
                    }
                    assert(all_prims(n as nat).contains(p as int));
                }
                return false;
            }
            p = p + 1;
        }
        proof {
            assert forall|q: int| #[trigger] self.item_set().contains(q) implies all_prims(n as nat).contains(q) by {
                let j = choose|j: int| 0 <= j < self.indices@.len() && self.indices@[j] as int == q;
            }
            assert(self.item_set() =~= all_prims(n as nat));
        }
        true
    }

    /// Whether every index lies under the root: the leaves reached from the
    /// root mark their primitives, and then every index must be marked.
    fn covered(&self, n: usize) -> (r: bool)
        requires
            self.wf(),
            n <= u32::MAX,
            forall|k: int| 0 <= k < self.indices@.len() ==> (#[trigger] self.indices@[k]) < n,
        ensures
            r == forall|j: int|
                0 <= j < self.indices@.len() ==> self.subtree(0).contains(#[trigger] self.indices@[j]),
    {
        let us = &self.uniforms;
        let is = &self.indices;
        let ni = is.len();
        let mut marks: Vec<bool> = Vec::new();
        let mut p: usize = 0;
        while p < n
            invariant
                p <= n,
                marks@.len() == p,
                forall|q: int| 0 <= q < p ==> !(#[trigger] marks@[q]),
            decreases n - p,
        {
            marks.push(false);
            p = p + 1;
        }
        let mut stack: Vec<u32> = Vec::new();
        stack.push(0);
        proof {
            assert forall|x: u32|
                (x as int) < n && #[trigger] self.subtree(0).contains(x) implies marks@[x as int] || exists|i: int|
                0 <= i < stack@.len() && self.subtree(stack@[i] as int).contains(x) by {
                assert(stack@[0] == 0);
            }
        }
        while stack.len() > 0
            invariant
                self.wf(),
                us == &self.uniforms,
                is == &self.indices,
                ni == self.indices@.len(),
                n <= u32::MAX,
                forall|k: int| 0 <= k < ni ==> (#[trigger] self.indices@[k]) < n,
                marks@.len() == n,
                forall|i: int| 0 <= i < stack@.len() ==> (#[trigger] stack@[i]) < self.uniforms@.len(),
                forall|i: int, x: u32|
                    0 <= i < stack@.len() && #[trigger] self.subtree(stack@[i] as int).contains(x)
                        ==> self.subtree(0).contains(x),
                forall|q: int| 0 <= q < n && #[trigger] marks@[q] ==> self.subtree(0).contains(q as u32),
                forall|x: u32|
                    (x as int) < n && #[trigger] self.subtree(0).contains(x) ==> marks@[x as int] || exists|i: int|
                        0 <= i < stack@.len() && self.subtree(stack@[i] as int).contains(x),
            decreases self.stack_size(stack@),
        {
            let ghost st = stack@;
            let s = stack.pop().unwrap();
            let ghost rest = stack@;
            proof {
                assert(st.drop_last() == rest);
                assert(self.stack_size(st) == self.stack_size(rest) + self.size(s as int));
                assert(self.size(s as int) >= 1);
                assert(self.node_ok(s as int));
                assert forall|i: int, x: u32|
                    0 <= i < rest.len() && #[trigger] self.subtree(rest[i] as int).contains(x)
                        implies self.subtree(0).contains(x) by {
                    assert(rest[i] == st[i]);
                }
            }
            let u = us[s as usize];
            if u.item_count > 0 {
                let start = u.item_idx as usize;
                let end = u.item_idx as usize + u.item_count as usize;
                let mut j: usize = start;
                let ghost marks0 = marks@;
                proof {
                    assert(self.subtree(s as int) == self.indices@.subrange(start as int, end as int));
                    assert(self.subtree(st[st.len() - 1] as int) == self.subtree(s as int));
                    assert forall|x: u32| #[trigger] self.subtree(s as int).contains(x) implies self.subtree(0).contains(x) by {
                        assert(self.subtree(st[st.len() - 1] as int).contains(x));
                    }
                }
                while j < end
                    invariant
                        ni == self.indices@.len(),
                        is == &self.indices,
                        forall|k: int| 0 <= k < ni ==> (#[trigger] self.indices@[k]) < n,
                        marks@.len() == n,
                        start <= j <= end,
                        end <= ni,
                        self.subtree(s as int) == self.indices@.subrange(start as int, end as int),
                        forall|x: u32| #[trigger] self.subtree(s as int).contains(x) ==> self.subtree(0).contains(x),
                        forall|q: int| 0 <= q < n && #[trigger] marks@[q] ==> self.subtree(0).contains(q as u32),
                        forall|q: int| 0 <= q < n && #[trigger] marks0[q] ==> marks@[q],
                        forall|k: int| start <= k < j ==> #[trigger] marks@[self.indices@[k] as int],
                    decreases end - j,
                {
                    let q = is[j] as usize;
                    proof {
                        assert(self.subtree(s as int)[j - start] == self.indices@[j as int]);
                        assert(self.subtree(s as int).contains(self.indices@[j as int]));
                    }
                    marks.set(q, true);
                    j = j + 1;
                }
                proof {
                    assert forall|x: u32|
                        (x as int) < n && #[trigger] self.subtree(0).contains(x) implies marks@[x as int] || exists|i: int|
                        0 <= i < stack@.len() && self.subtree(stack@[i] as int).contains(x) by {
                        if !marks0[x as int] {
                            let i = choose|i: int| 0 <= i < st.len() && self.subtree(st[i] as int).contains(x);
                            if i == st.len() - 1 {
                                let k = choose|k: int| 0 <= k < self.subtree(s as int).len() && self.subtree(s as int)[k] == x;
                                assert(self.indices@[start + k] == x);
                                assert(marks@[self.indices@[start + k] as int]);
                            } else {
                                assert(stack@[i] == st[i]);
                            }
                        }
                    }
                }
            } else {
                stack.push(u.fst);
                stack.push(u.snd);
                proof {
                    assert(stack@.drop_last() == rest.push(u.fst));
                    assert(rest.push(u.fst).drop_last() == rest);
                    assert(self.size(s as int) == 1 + self.size(u.fst as int) + self.size(u.snd as int));
                    assert(stack@.last() == u.snd);
                    assert(self.stack_size(stack@) == self.stack_size(rest.push(u.fst)) + self.size(u.snd as int));
                    assert(rest.push(u.fst).last() == u.fst);
                    assert(self.stack_size(rest.push(u.fst)) == self.stack_size(rest) + self.size(u.fst as int));
                    assert(self.subtree(s as int) == self.subtree(u.fst as int) + self.subtree(u.snd as int));
                    assert(self.subtree(st[st.len() - 1] as int) == self.subtree(s as int));
                    assert forall|i: int, x: u32|
                        0 <= i < stack@.len() && #[trigger] self.subtree(stack@[i] as int).contains(x)
                            implies self.subtree(0).contains(x) by {
                        if i < rest.len() {
                            assert(stack@[i] == rest[i]);
                        } else if i == rest.len() {
                            let k = choose|k: int| 0 <= k < self.subtree(u.fst as int).len() && self.subtree(u.fst as int)[k] == x;
                            assert(self.subtree(s as int)[k] == x);
                            assert(self.subtree(st[st.len() - 1] as int).contains(x));
                        } else {
                            let k = choose|k: int| 0 <= k < self.subtree(u.snd as int).len() && self.subtree(u.snd as int)[k] == x;
                            assert(self.subtree(s as int)[self.subtree(u.fst as int).len() + k] == x);
                            assert(self.subtree(st[st.len() - 1] as int).contains(x));
                        }
                    }
                    assert forall|x: u32|
                        (x as int) < n && #[trigger] self.subtree(0).contains(x) implies marks@[x as int] || exists|i: int|
                        0 <= i < stack@.len() && self.subtree(stack@[i] as int).contains(x) by {
                        if !marks@[x as int] {
                            let i = choose|i: int| 0 <= i < st.len() && self.subtree(st[i] as int).contains(x);
                            if i == st.len() - 1 {
                                let k = choose|k: int| 0 <= k < self.subtree(s as int).len() && self.subtree(s as int)[k] == x;
                                let lf = self.subtree(u.fst as int).len();
                                if k < lf {
                                    assert(self.subtree(stack@[rest.len() as int] as int)[k] == x);
                                } else {
                                    assert(self.subtree(stack@[rest.len() as int + 1] as int)[k - lf] == x);
                                }
                            } else {
                                assert(stack@[i] == st[i]);
                            }
                        }
                    }
                }
            }
        }
        let mut j: usize = 0;
        while j < ni
            invariant
                ni == self.indices@.len(),
                is == &self.indices,
                forall|k: int| 0 <= k < ni ==> (#[trigger] self.indices@[k]) < n,
                marks@.len() == n,
                forall|q: int| 0 <= q < n && #[trigger] marks@[q] ==> self.subtree(0).contains(q as u32),
                forall|x: u32| (x as int) < n && #[trigger] self.subtree(0).contains(x) ==> marks@[x as int],
                j <= ni,
                forall|k: int| 0 <= k < j ==> self.subtree(0).contains(#[trigger] self.indices@[k]),
            decreases ni - j,
        {
            if !marks[is[j] as usize] {
                proof {
                    assert(!self.subtree(0).contains(self.indices@[j as int]));
                }
                return false;
            }
            proof {
                assert(marks@[self.indices@[j as int] as int]);
            }
            j = j + 1;
        }
        true
    }
}

} // verus!
