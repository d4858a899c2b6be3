use vstd::prelude::*;

use crate::data::{AabbUniform, BvhData};

verus! {

/// Most items a leaf may hold in the compact layout.
pub const RF_LEAF_ITEMS: usize = 8;

/// Record ids and primitive indices must stay below this to fit 16 bits.
pub const RF_ID_LIMIT: u64 = 65536;

/// One record of the compact layout. A node record names the flat record
/// whose box it carries (packed into half-precision pairs by the consumer) and
/// a tag: bit 31 set for a leaf, else the ids of the two children in the high
/// and low 16 bits. A leaf's node record is followed by an items record with
/// its indices, zero-filled to eight.
#[derive(Clone, Copy, Debug, PartialEq, Eq)]
pub enum RfRecord {
    Node { node: u32, tag: u32 },
    Items { items: [u16; 8] },
}

/// Number of leaves among the first `i` flat records.
pub open spec fn leaves_before(us: Seq<AabbUniform>, i: int) -> nat
    decreases i,
{
    if i <= 0 {
        0
    } else {
        leaves_before(us, i - 1) + if us[i - 1].item_count > 0 {
            1nat
        } else {
            0nat
        }
    }
}

/// Where flat record `i` lands in the compact layout: every leaf before it
/// takes one extra record.
pub open spec fn rf_pos(us: Seq<AabbUniform>, i: int) -> int {
    i + leaves_before(us, i)
}

/// The tag of flat record `i`.
pub open spec fn rf_tag(us: Seq<AabbUniform>, i: int) -> u32 {
    let u = us[i];
    if u.item_count > 0 {
        0x8000_0000
    } else {
        (rf_pos(us, u.fst as int) * 65536 + rf_pos(us, u.snd as int)) as u32
    }
}

/// Item `k` of leaf record `i`, zero past its count.
pub open spec fn rf_item(data: BvhData, i: int, k: int) -> u16 {
    let u = data.uniforms@[i];
    if k < u.item_count {
        data.indices@[u.item_idx + k] as u16
    } else {
        0
    }
}

/// Flat record `i` fits the compact layout: a leaf holds at most eight items,
/// each below 65536; an internal record's children land below 65536.
pub open spec fn rf_fits_at(data: BvhData, i: int) -> bool {
    let u = data.uniforms@[i];
    if u.item_count > 0 {
        &&& u.item_count <= RF_LEAF_ITEMS
        &&& forall|k: int| 0 <= k < u.item_count ==> (#[trigger] data.indices@[u.item_idx + k]) < RF_ID_LIMIT
    } else {
        &&& rf_pos(data.uniforms@, u.fst as int) < RF_ID_LIMIT
        &&& rf_pos(data.uniforms@, u.snd as int) < RF_ID_LIMIT
    }
}

proof fn lemma_leaves_before_mono(us: Seq<AabbUniform>, i: int, j: int)
    requires
        0 <= i <= j,
    ensures
        leaves_before(us, i) <= leaves_before(us, j),
        leaves_before(us, j) <= j,
    decreases j,
{
    if j > 0 {
        if i < j {
            lemma_leaves_before_mono(us, i, j - 1);
        } else {
            lemma_leaves_before_mono(us, j - 1, j - 1);
        }
    }
}

fn item_at(indices: &Vec<u32>, idx: usize, count: usize, k: usize) -> (r: u16)
    requires
        idx + count <= indices@.len(),
        forall|m: int| 0 <= m < count ==> (#[trigger] indices@[idx + m]) < RF_ID_LIMIT,
    ensures
        r == if k < count {
            indices@[idx + k] as u16
        } else {
            0u16
        },
{
    let _ = indices.len();
    if k < count {
        assert(indices@[idx + k as int] < RF_ID_LIMIT);
        indices[idx + k] as u16
    } else {
        0
    }
}

impl BvhData {
    /// The compact layout of the records, or `None` where some record does not
    /// fit it (a leaf with more than eight items, or an index or record id past
    /// 16 bits).
    pub fn compact(&self) -> (r: Option<Vec<RfRecord>>)
        requires
            self.wf(),
            self.uniforms@.len() <= u32::MAX,
        ensures
            match r {
                Some(recs) => {
                    &&& forall|i: int| 0 <= i < self.uniforms@.len() ==> #[trigger] rf_fits_at(*self, i)
                    &&& recs@.len() == rf_pos(self.uniforms@, self.uniforms@.len() as int)
                    &&& forall|i: int|
                        0 <= i < self.uniforms@.len() ==> #[trigger] recs@[rf_pos(self.uniforms@, i)]
                            == (RfRecord::Node { node: i as u32, tag: rf_tag(self.uniforms@, i) })
                    &&& forall|i: int|
                        0 <= i < self.uniforms@.len() && self.uniforms@[i].item_count > 0 ==> (
                        #[trigger] recs@[rf_pos(self.uniforms@, i) + 1] matches RfRecord::Items { items }
                            && forall|k: int| 0 <= k < 8 ==> #[trigger] items[k] == rf_item(*self, i, k))
                },
                None => exists|i: int| 0 <= i < self.uniforms@.len() && !#[trigger] rf_fits_at(*self, i),
            },
    {
        let us = &self.uniforms;
        let n = us.len();
        let mut pos: Vec<u64> = Vec::new();
        let mut p: u64 = 0;
        let mut i: usize = 0;
        while i < n
            invariant
                n == us@.len(),
                n <= u32::MAX,
                i <= n,
                pos@.len() == i,
                p == rf_pos(us@, i as int),
                forall|j: int| 0 <= j < i ==> #[trigger] pos@[j] == rf_pos(us@, j),
            decreases n - i,
        {
            proof {
                lemma_leaves_before_mono(us@, i as int, i as int);
            }
            pos.push(p);
            if us[i].item_count > 0 {
                p = p + 2;
            } else {
                p = p + 1;
            }
            i = i + 1;
        }
        let mut recs: Vec<RfRecord> = Vec::new();
        let mut i: usize = 0;
        while i < n
            invariant
                n == us@.len(),
                n <= u32::MAX,
                self.wf(),
                us == &self.uniforms,
                i <= n,
                pos@.len() == n,
                forall|j: int| 0 <= j < n ==> #[trigger] pos@[j] == rf_pos(us@, j),
                recs@.len() == rf_pos(us@, i as int),
                forall|j: int| 0 <= j < i ==> #[trigger] rf_fits_at(*self, j),
                forall|j: int|
                    0 <= j < i ==> #[trigger] recs@[rf_pos(us@, j)] == (RfRecord::Node {
                        node: j as u32,
                        tag: rf_tag(us@, j),
                    }),
                forall|j: int|
                    0 <= j < i && us@[j].item_count > 0 ==> (#[trigger] recs@[rf_pos(us@, j) + 1] matches RfRecord::Items {
                        items,
                    } && forall|k: int| 0 <= k < 8 ==> #[trigger] items[k] == rf_item(*self, j, k)),
            decreases n - i,
        {
            let u = us[i];
            proof {
                assert(self.node_ok(i as int));
                lemma_leaves_before_mono(us@, i as int, i as int);
            }
            let ghost before = recs@;
            if u.item_count > 0 {
                if u.item_count as usize > RF_LEAF_ITEMS {
                    proof {
                        assert(!rf_fits_at(*self, i as int));
                    }
                    return None;
                }
                let idx = u.item_idx as usize;
                let count = u.item_count as usize;
                let _ = self.indices.len();
                let mut k: usize = 0;
                while k < count
                    invariant
                        i < self.uniforms@.len(),
                        self.indices@.len() <= usize::MAX,
                        idx + count <= self.indices@.len(),
                        idx == u.item_idx,
                        count == u.item_count,
                        u == self.uniforms@[i as int],
                        k <= count,
                        forall|m: int| 0 <= m < k ==> (#[trigger] self.indices@[u.item_idx + m]) < RF_ID_LIMIT,
                    decreases count - k,
                {
                    if self.indices[idx + k] as u64 >= RF_ID_LIMIT {
                        proof {
                            assert(!rf_fits_at(*self, i as int)) by {
                                assert(self.indices@[u.item_idx + k as int] >= RF_ID_LIMIT);
                            }
                        }
                        return None;
                    }
                    k = k + 1;
                }
                let items: [u16; 8] = [
                    item_at(&self.indices, idx, count, 0),
                    item_at(&self.indices, idx, count, 1),
                    item_at(&self.indices, idx, count, 2),
                    item_at(&self.indices, idx, count, 3),
                    item_at(&self.indices, idx, count, 4),
                    item_at(&self.indices, idx, count, 5),
                    item_at(&self.indices, idx, count, 6),
                    item_at(&self.indices, idx, count, 7),
                ];
                recs.push(RfRecord::Node { node: i as u32, tag: 0x8000_0000 });
                recs.push(RfRecord::Items { items });
                proof {
                    assert forall|k: int| 0 <= k < 8 implies #[trigger] items[k] == rf_item(*self, i as int, k) by {
                        if k == 0 {
                        } else if k == 1 {
                        } else if k == 2 {
                        } else if k == 3 {
                        } else if k == 4 {
                        } else if k == 5 {
                        } else if k == 6 {
                        } else {
                        }
                    }
                    assert(rf_fits_at(*self, i as int));
                }
            } else {
                let pf = pos[u.fst as usize];
                let ps = pos[u.snd as usize];
                if pf >= RF_ID_LIMIT || ps >= RF_ID_LIMIT {
                    proof {
                        assert(!rf_fits_at(*self, i as int));
                    }
                    return None;
                }
                let tag = (pf as u32) * 65536 + ps as u32;
                recs.push(RfRecord::Node { node: i as u32, tag });
            }
            proof {
                assert(leaves_before(us@, i + 1) == leaves_before(us@, i as int) + if us@[i as int].item_count > 0 {
                    1nat
                } else {
                    0nat
                });
                assert forall|j: int| 0 <= j < i implies #[trigger] recs@[rf_pos(us@, j)] == before[rf_pos(us@, j)] by {
                    lemma_leaves_before_mono(us@, j, i as int);
                    lemma_leaves_before_mono(us@, j + 1, i as int);
                    assert(leaves_before(us@, j + 1) >= leaves_before(us@, j));
                }
                assert forall|j: int| 0 <= j < i && us@[j].item_count > 0 implies #[trigger] recs@[rf_pos(us@, j) + 1]
                    == before[rf_pos(us@, j) + 1] by {
                    lemma_leaves_before_mono(us@, j + 1, i as int);
                    assert(leaves_before(us@, j + 1) == leaves_before(us@, j) + 1);
                }
            }
            i = i + 1;
        }
        Some(recs)
    }
}

} // verus!
