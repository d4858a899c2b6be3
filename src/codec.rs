use vstd::prelude::*;

use crate::aabb::Bounds;
use crate::data::{AabbUniform, BvhData};

verus! {

/// Why a byte blob is not an encoded hierarchy.
#[derive(Clone, Copy, Debug, PartialEq, Eq)]
pub enum DecodeError {
    /// The length is not what the two counts in the header call for.
    Length,
    /// A padding word of some record is not zero.
    Padding,
}

/// Words per encoded record.
pub const NODE_WORDS: usize = 12;

/// The two's-complement bits of `x`.
pub open spec fn i32_word(x: i32) -> u32 {
    if x >= 0 {
        x as u32
    } else {
        (x + 0x1_0000_0000) as u32
    }
}

/// The `i32` whose two's-complement bits are `w`.
pub open spec fn word_i32(w: u32) -> i32 {
    if w < 0x8000_0000 {
        w as i32
    } else {
        (w - 0x1_0000_0000) as i32
    }
}

/// The words of one record: child ids, `min` and a zero pad, `max` and a zero
/// pad, then the item range.
pub open spec fn node_words(u: AabbUniform) -> Seq<u32> {
    seq![
        u.fst,
        u.snd,
        i32_word(u.bounds.min[0]),
        i32_word(u.bounds.min[1]),
        i32_word(u.bounds.min[2]),
        0u32,
        i32_word(u.bounds.max[0]),
        i32_word(u.bounds.max[1]),
        i32_word(u.bounds.max[2]),
        0u32,
        u.item_idx,
        u.item_count,
    ]
}

/// The words of the records, one after another.
pub open spec fn nodes_words(us: Seq<AabbUniform>) -> Seq<u32>
    decreases us.len(),
{
    if us.len() == 0 {
        Seq::empty()
    } else {
        nodes_words(us.drop_last()) + node_words(us.last())
    }
}

/// The words of a blob: the record count, the index count, the records, the
/// indices.
pub open spec fn blob_words(us: Seq<AabbUniform>, is: Seq<u32>) -> Seq<u32> {
    seq![us.len() as u32, is.len() as u32] + nodes_words(us) + is
}

/// The four little-endian bytes of `w`.
pub open spec fn word_bytes(w: u32) -> Seq<u8> {
    seq![(w & 0xff) as u8, ((w >> 8u32) & 0xff) as u8, ((w >> 16u32) & 0xff) as u8, (w >> 24u32) as u8]
}

/// The bytes of the words, one after another.
pub open spec fn words_bytes(ws: Seq<u32>) -> Seq<u8>
    decreases ws.len(),
{
    if ws.len() == 0 {
        Seq::empty()
    } else {
        words_bytes(ws.drop_last()) + word_bytes(ws.last())
    }
}

/// The byte blob of the records `us` and indices `is`.
pub open spec fn encoding(us: Seq<AabbUniform>, is: Seq<u32>) -> Seq<u8> {
    words_bytes(blob_words(us, is))
}

/// The word whose little-endian bytes are `b0 .. b3`.
pub open spec fn bytes_word(b0: u8, b1: u8, b2: u8, b3: u8) -> u32 {
    (b0 as u32) | ((b1 as u32) << 8u32) | ((b2 as u32) << 16u32) | ((b3 as u32) << 24u32)
}

proof fn lemma_word_round_trip(w: u32)
    ensures
        bytes_word(word_bytes(w)[0], word_bytes(w)[1], word_bytes(w)[2], word_bytes(w)[3]) == w,
{
    let b0 = (w & 0xff) as u8;
    let b1 = ((w >> 8u32) & 0xff) as u8;
    let b2 = ((w >> 16u32) & 0xff) as u8;
    let b3 = (w >> 24u32) as u8;
    assert((b0 as u32) | ((b1 as u32) << 8u32) | ((b2 as u32) << 16u32) | ((b3 as u32) << 24u32) == w)
        by (bit_vector)
        requires
            b0 == (w & 0xff) as u8,
            b1 == ((w >> 8u32) & 0xff) as u8,
            b2 == ((w >> 16u32) & 0xff) as u8,
            b3 == (w >> 24u32) as u8,
    ;
}

proof fn lemma_bytes_round_trip(b0: u8, b1: u8, b2: u8, b3: u8)
    ensures
        word_bytes(bytes_word(b0, b1, b2, b3)) == seq![b0, b1, b2, b3],
{
    let w = bytes_word(b0, b1, b2, b3);
    assert((w & 0xff) as u8 == b0 && ((w >> 8u32) & 0xff) as u8 == b1 && ((w >> 16u32) & 0xff) as u8
        == b2 && (w >> 24u32) as u8 == b3) by (bit_vector)
        requires
            w == (b0 as u32) | ((b1 as u32) << 8u32) | ((b2 as u32) << 16u32) | ((b3 as u32) << 24u32),
    ;
    assert(word_bytes(w) =~= seq![b0, b1, b2, b3]);
}

proof fn lemma_i32_round_trip(x: i32, w: u32)
    ensures
        word_i32(i32_word(x)) == x,
        i32_word(word_i32(w)) == w,
{
}

proof fn lemma_words_bytes(ws: Seq<u32>)
    ensures
        words_bytes(ws).len() == 4 * ws.len(),
        forall|k: int, t: int|
            0 <= k < ws.len() && 0 <= t < 4 ==> words_bytes(ws)[4 * k + t] == #[trigger] word_bytes(
                ws[k],
            )[t],
    decreases ws.len(),
{
    if ws.len() > 0 {
        let rest = ws.drop_last();
        lemma_words_bytes(rest);
        assert forall|k: int, t: int| 0 <= k < ws.len() && 0 <= t < 4 implies words_bytes(ws)[4 * k + t]
            == #[trigger] word_bytes(ws[k])[t] by {
            if k < ws.len() - 1 {
                assert(rest[k] == ws[k]);
                assert(word_bytes(rest[k])[t] == words_bytes(rest)[4 * k + t]);
            }
        }
    }
}

proof fn lemma_nodes_words(us: Seq<AabbUniform>)
    ensures
        nodes_words(us).len() == NODE_WORDS * us.len(),
        forall|k: int, t: int|
            0 <= k < us.len() && 0 <= t < NODE_WORDS ==> nodes_words(us)[NODE_WORDS * k + t]
                == #[trigger] node_words(us[k])[t],
    decreases us.len(),
{
    if us.len() > 0 {
        let rest = us.drop_last();
        lemma_nodes_words(rest);
        assert forall|k: int, t: int| 0 <= k < us.len() && 0 <= t < NODE_WORDS implies nodes_words(
            us,
        )[NODE_WORDS * k + t] == #[trigger] node_words(us[k])[t] by {
            if k < us.len() - 1 {
                assert(rest[k] == us[k]);
                assert(node_words(rest[k])[t] == nodes_words(rest)[NODE_WORDS * k + t]);
            }
        }
    }
}

/// The words read back from the bytes of `ws`, four bytes at a time, are `ws`.
proof fn lemma_words_read_back(ws: Seq<u32>, bytes: Seq<u8>, read: Seq<u32>)
    requires
        words_bytes(ws) == bytes,
        4 * read.len() == bytes.len(),
        forall|k: int|
            0 <= k < read.len() ==> #[trigger] read[k] == bytes_word(
                bytes[4 * k],
                bytes[4 * k + 1],
                bytes[4 * k + 2],
                bytes[4 * k + 3],
            ),
    ensures
        read == ws,
{
    lemma_words_bytes(ws);
    assert forall|k: int| 0 <= k < read.len() implies #[trigger] read[k] == ws[k] by {
        lemma_word_round_trip(ws[k]);
        assert(word_bytes(ws[k])[0] == bytes[4 * k + 0]);
        assert(word_bytes(ws[k])[1] == bytes[4 * k + 1]);
        assert(word_bytes(ws[k])[2] == bytes[4 * k + 2]);
        assert(word_bytes(ws[k])[3] == bytes[4 * k + 3]);
    }
    assert(read =~= ws);
}

/// The bytes of words read four bytes at a time are the bytes they were read from.
proof fn lemma_read_words_bytes(bytes: Seq<u8>, read: Seq<u32>)
    requires
        4 * read.len() == bytes.len(),
        forall|k: int|
            0 <= k < read.len() ==> #[trigger] read[k] == bytes_word(
                bytes[4 * k],
                bytes[4 * k + 1],
                bytes[4 * k + 2],
                bytes[4 * k + 3],
            ),
    ensures
        words_bytes(read) == bytes,
{
    lemma_words_bytes(read);
    assert forall|i: int| 0 <= i < bytes.len() implies #[trigger] words_bytes(read)[i] == bytes[i] by {
        let k = i / 4;
        let t = i % 4;
        assert(i == 4 * k + t);
        lemma_bytes_round_trip(bytes[4 * k], bytes[4 * k + 1], bytes[4 * k + 2], bytes[4 * k + 3]);
        assert(word_bytes(read[k])[t] == words_bytes(read)[4 * k + t]);
    }
    assert(words_bytes(read) =~= bytes);
}

/// The blob's length is a whole number of words, at least the header, and
/// exactly what the header's two counts call for.
pub open spec fn length_ok(bytes: Seq<u8>) -> bool {
    &&& bytes.len() % 4 == 0
    &&& bytes.len() >= 8
    &&& bytes.len() / 4 == 2 + NODE_WORDS * bytes_word(bytes[0], bytes[1], bytes[2], bytes[3])
        + bytes_word(bytes[4], bytes[5], bytes[6], bytes[7])
}

fn word_of(x: i32) -> (w: u32)
    ensures
        w == i32_word(x),
{
    if x >= 0 {
        x as u32
    } else {
        (x as i64 + 0x1_0000_0000i64) as u32
    }
}

fn i32_of(w: u32) -> (x: i32)
    ensures
        x == word_i32(w),
{
    if w < 0x8000_0000 {
        w as i32
    } else {
        (w as i64 - 0x1_0000_0000i64) as i32
    }
}

fn read_word(bytes: &Vec<u8>, at: usize) -> (w: u32)
    requires
        at + 4 <= bytes@.len(),
    ensures
        w == bytes_word(bytes@[at as int], bytes@[at + 1], bytes@[at + 2], bytes@[at + 3]),
{
    let _ = bytes.len();
    (bytes[at] as u32) | ((bytes[at + 1] as u32) << 8u32) | ((bytes[at + 2] as u32) << 16u32) | ((
    bytes[at + 3] as u32) << 24u32)
}

impl BvhData {
    /// The blob of the records and indices: two little-endian `u32` counts,
    /// each record as twelve words (child ids, `min`, a zero pad, `max`, a zero
    /// pad, the item range), then the indices.
    pub fn encode(&self) -> (r: Vec<u8>)
        requires
            self.uniforms@.len() <= u32::MAX,
            self.indices@.len() <= u32::MAX,
        ensures
            r@ == encoding(self.uniforms@, self.indices@),
    {
        let us = &self.uniforms;
        let is = &self.indices;
        let mut words: Vec<u32> = Vec::new();
        words.push(us.len() as u32);
        words.push(is.len() as u32);
        let mut k: usize = 0;
        proof {
            assert(us@.take(0) =~= Seq::<AabbUniform>::empty());
            assert(words@ =~= seq![us@.len() as u32, is@.len() as u32] + nodes_words(us@.take(0)));
        }
        while k < us.len()
            invariant
                k <= us@.len(),
                words@ == seq![us@.len() as u32, is@.len() as u32] + nodes_words(us@.take(k as int)),
            decreases us@.len() - k,
        {
            let u = us[k];
            let ghost before = words@;
            words.push(u.fst);
            words.push(u.snd);
            words.push(word_of(u.bounds.min[0]));
            words.push(word_of(u.bounds.min[1]));
            words.push(word_of(u.bounds.min[2]));
            words.push(0);
            words.push(word_of(u.bounds.max[0]));
            words.push(word_of(u.bounds.max[1]));
            words.push(word_of(u.bounds.max[2]));
            words.push(0);
            words.push(u.item_idx);
            words.push(u.item_count);
            proof {
                assert(words@ =~= before + node_words(u));
                assert(us@.take(k + 1).drop_last() =~= us@.take(k as int));
                assert(us@.take(k + 1).last() == u);
            }
            k = k + 1;
        }
        let mut j: usize = 0;
        proof {
            assert(us@.take(k as int) =~= us@);
        }
        while j < is.len()
            invariant
                j <= is@.len(),
                words@ == seq![us@.len() as u32, is@.len() as u32] + nodes_words(us@) + is@.take(
                    j as int,
                ),
            decreases is@.len() - j,
        {
            words.push(is[j]);
            proof {
                assert(is@.take(j + 1) =~= is@.take(j as int).push(is@[j as int]));
            }
            j = j + 1;
        }
        proof {
            assert(is@.take(j as int) =~= is@);
        }
        let mut out: Vec<u8> = Vec::new();
        let mut i: usize = 0;
        while i < words.len()
            invariant
                i <= words@.len(),
                words@ == blob_words(us@, is@),
                out@ == words_bytes(words@.take(i as int)),
            decreases words@.len() - i,
        {
            let w = words[i];
            out.push((w & 0xff) as u8);
            out.push(((w >> 8u32) & 0xff) as u8);
            out.push(((w >> 16u32) & 0xff) as u8);
            out.push((w >> 24u32) as u8);
            proof {
                assert(words@.take(i + 1).drop_last() =~= words@.take(i as int));
                assert(words@.take(i + 1).last() == w);
                assert(out@ =~= words_bytes(words@.take(i + 1)));
            }
            i = i + 1;
        }
        proof {
            assert(words@.take(i as int) =~= words@);
        }
        out
    }
}

/// The words of `bytes`, four little-endian bytes each.
fn read_words(bytes: &Vec<u8>) -> (words: Vec<u32>)
    requires
        bytes@.len() % 4 == 0,
    ensures
        4 * words@.len() == bytes@.len(),
        forall|j: int|
            0 <= j < words@.len() ==> #[trigger] words@[j] == bytes_word(
                bytes@[4 * j],
                bytes@[4 * j + 1],
                bytes@[4 * j + 2],
                bytes@[4 * j + 3],
            ),
{
    let nw = bytes.len() / 4;
    let mut words: Vec<u32> = Vec::new();
    proof {
        assert(bytes@.len() <= usize::MAX);
    }
    let mut k: usize = 0;
    while k < nw
        invariant
            nw * 4 == bytes@.len(),
            bytes@.len() <= usize::MAX,
            k <= nw,
            words@.len() == k,
            forall|j: int|
                0 <= j < k ==> #[trigger] words@[j] == bytes_word(
                    bytes@[4 * j],
                    bytes@[4 * j + 1],
                    bytes@[4 * j + 2],
                    bytes@[4 * j + 3],
                ),
        decreases nw - k,
    {
        let w = read_word(bytes, 4 * k);
        words.push(w);
        k = k + 1;
    }
    words
}

/// The `n` records that follow the two header words, or `None` where some
/// record's pad word is not zero.
fn read_nodes(words: &Vec<u32>, n: usize) -> (r: Option<Vec<AabbUniform>>)
    requires
        2 + NODE_WORDS * n <= words@.len(),
    ensures
        match r {
            Some(us) => {
                &&& us@.len() == n
                &&& forall|j: int, t: int|
                    0 <= j < n && 0 <= t < NODE_WORDS ==> #[trigger] node_words(us@[j])[t]
                        == words@[2 + NODE_WORDS * j + t]
            },
            None => exists|j: int|
                0 <= j < n && (#[trigger] words@[2 + NODE_WORDS * j + 5] != 0 || words@[2
                    + NODE_WORDS * j + 9] != 0),
        },
{
    let mut uniforms: Vec<AabbUniform> = Vec::new();
    let mut i: usize = 0;
    let _ = words.len();
    while i < n
        invariant
            2 + NODE_WORDS * n <= words@.len(),
            words@.len() <= usize::MAX,
            i <= n,
            uniforms@.len() == i,
            forall|j: int, t: int|
                0 <= j < i && 0 <= t < NODE_WORDS ==> #[trigger] node_words(uniforms@[j])[t]
                    == words@[2 + NODE_WORDS * j + t],
        decreases n - i,
    {
        let at = 2 + 12 * i;
        if words[at + 5] != 0 || words[at + 9] != 0 {
            return None;
        }
        let u = AabbUniform {
            fst: words[at],
            snd: words[at + 1],
            item_idx: words[at + 10],
            item_count: words[at + 11],
            bounds: Bounds {
                min: [i32_of(words[at + 2]), i32_of(words[at + 3]), i32_of(words[at + 4])],
                max: [i32_of(words[at + 6]), i32_of(words[at + 7]), i32_of(words[at + 8])],
            },
        };
        uniforms.push(u);
        proof {
            assert forall|t: int| 0 <= t < NODE_WORDS implies #[trigger] node_words(u)[t] == words@[at
                + t] by {
                lemma_i32_round_trip(0, words@[at + t]);
            }
            assert forall|j: int, t: int|
                0 <= j < i + 1 && 0 <= t < NODE_WORDS implies #[trigger] node_words(uniforms@[j])[t]
                == words@[2 + NODE_WORDS * j + t] by {
                if j == i {
                    assert(uniforms@[j] == u);
                }
            }
        }
        i = i + 1;
    }
    Some(uniforms)
}

impl BvhData {
    /// Reads a blob back. It fails with `Length` exactly when the blob's length
    /// is not what its header calls for, and otherwise with `Padding`, where
    /// some record's pad word is not zero; a blob that fails is the encoding of
    /// nothing, and a blob that decodes is the encoding of what it decodes to.
    pub fn decode(bytes: &Vec<u8>) -> (r: Result<BvhData, DecodeError>)
        ensures
            match r {
                Ok(d) => encoding(d.uniforms@, d.indices@) == bytes@,
                Err(e) => {
                    &&& (e == DecodeError::Length) == !length_ok(bytes@)
                    &&& forall|us: Seq<AabbUniform>, is: Seq<u32>|
                        us.len() <= u32::MAX && is.len() <= u32::MAX ==> #[trigger] encoding(us, is)
                            != bytes@
                },
            },
    {
        if bytes.len() % 4 != 0 || bytes.len() < 8 {
            proof {
                lemma_encodings_fit(bytes@);
            }
            return Err(DecodeError::Length);
        }
        let words = read_words(bytes);
        let nw = words.len();
        proof {
            lemma_read_words_bytes(bytes@, words@);
            assert forall|us: Seq<AabbUniform>, is: Seq<u32>|
                us.len() <= u32::MAX && is.len() <= u32::MAX && #[trigger] encoding(us, is)
                    == bytes@ implies blob_words(us, is) == words@ by {
                lemma_words_read_back(blob_words(us, is), bytes@, words@);
            }
            assert(words@[0] == bytes_word(bytes@[0], bytes@[1], bytes@[2], bytes@[3]));
            assert(words@[1] == bytes_word(bytes@[4], bytes@[5], bytes@[6], bytes@[7]));
        }
        let n = words[0] as usize;
        let m = words[1] as usize;
        if nw as u64 != 2 + 12 * (n as u64) + m as u64 {
            proof {
                lemma_encodings_fit(bytes@);
            }
            return Err(DecodeError::Length);
        }
        let uniforms = match read_nodes(&words, n) {
            Some(us) => us,
            None => {
                proof {
                    let j = choose|j: int|
                        0 <= j < n && (#[trigger] words@[2 + NODE_WORDS * j + 5] != 0 || words@[2
                            + NODE_WORDS * j + 9] != 0);
                    assert forall|us: Seq<AabbUniform>, is: Seq<u32>|
                        us.len() <= u32::MAX && is.len() <= u32::MAX implies #[trigger] encoding(us, is)
                        != bytes@ by {
                        if encoding(us, is) == bytes@ {
                            lemma_nodes_words(us);
                            assert(blob_words(us, is)[0] == us.len() as u32);
                            assert(us.len() == n);
                            assert(node_words(us[j])[5] == words@[2 + NODE_WORDS * j + 5]);
                            assert(node_words(us[j])[9] == words@[2 + NODE_WORDS * j + 9]);
                        }
                    }
                }
                return Err(DecodeError::Padding);
            },
        };
        let mut indices: Vec<u32> = Vec::new();
        let start = 2 + 12 * n;
        let mut j: usize = 0;
        while j < m
            invariant
                nw == words@.len(),
                nw == start + m,
                j <= m,
                indices@ == words@.subrange(start as int, start + j),
            decreases m - j,
        {
            indices.push(words[start + j]);
            proof {
                assert(words@.subrange(start as int, start + j + 1) =~= words@.subrange(
                    start as int,
                    start + j,
                ).push(words@[start + j]));
            }
            j = j + 1;
        }
        let d = BvhData { uniforms, indices };
        proof {
            lemma_nodes_words(d.uniforms@);
            assert forall|t: int| 0 <= t < words@.len() implies #[trigger] blob_words(
                d.uniforms@,
                d.indices@,
            )[t] == words@[t] by {
                if 2 <= t < start {
                    let q = (t - 2) / 12;
                    let r = (t - 2) % 12;
                    assert(t == 2 + NODE_WORDS * q + r);
                    assert(node_words(d.uniforms@[q])[r] == words@[2 + NODE_WORDS * q + r]);
                }
            }
            assert(blob_words(d.uniforms@, d.indices@) =~= words@);
        }
        Ok(d)
    }
}

/// Every encoding has the length that its header calls for.
proof fn lemma_encodings_fit(bytes: Seq<u8>)
    ensures
        forall|us: Seq<AabbUniform>, is: Seq<u32>|
            us.len() <= u32::MAX && is.len() <= u32::MAX && #[trigger] encoding(us, is) == bytes
                ==> length_ok(bytes),
{
    assert forall|us: Seq<AabbUniform>, is: Seq<u32>|
        us.len() <= u32::MAX && is.len() <= u32::MAX && #[trigger] encoding(us, is) == bytes implies length_ok(
        bytes,
    ) by {
        let ws = blob_words(us, is);
        lemma_words_bytes(ws);
        lemma_nodes_words(us);
        lemma_word_round_trip(ws[0]);
        lemma_word_round_trip(ws[1]);
        assert(word_bytes(ws[0])[0] == bytes[0]);
        assert(word_bytes(ws[0])[1] == bytes[1]);
        assert(word_bytes(ws[0])[2] == bytes[2]);
        assert(word_bytes(ws[0])[3] == bytes[3]);
        assert(word_bytes(ws[1])[0] == bytes[4]);
        assert(word_bytes(ws[1])[1] == bytes[5]);
        assert(word_bytes(ws[1])[2] == bytes[6]);
        assert(word_bytes(ws[1])[3] == bytes[7]);
    }
}

proof fn lemma_words_of_bytes(ws: Seq<u32>)
    ensures
        forall|k: int|
            0 <= k < ws.len() ==> #[trigger] ws[k] == bytes_word(
                words_bytes(ws)[4 * k],
                words_bytes(ws)[4 * k + 1],
                words_bytes(ws)[4 * k + 2],
                words_bytes(ws)[4 * k + 3],
            ),
{
    lemma_words_bytes(ws);
    assert forall|k: int| 0 <= k < ws.len() implies #[trigger] ws[k] == bytes_word(
        words_bytes(ws)[4 * k],
        words_bytes(ws)[4 * k + 1],
        words_bytes(ws)[4 * k + 2],
        words_bytes(ws)[4 * k + 3],
    ) by {
        lemma_word_round_trip(ws[k]);
        assert(word_bytes(ws[k])[0] == words_bytes(ws)[4 * k + 0]);
        assert(word_bytes(ws[k])[1] == words_bytes(ws)[4 * k + 1]);
        assert(word_bytes(ws[k])[2] == words_bytes(ws)[4 * k + 2]);
        assert(word_bytes(ws[k])[3] == words_bytes(ws)[4 * k + 3]);
    }
}

/// Round trip: records and indices are determined by their encoding, so
/// decoding an encoded hierarchy gives back the same records and indices,
/// field for field.
pub proof fn lemma_round_trip(us1: Seq<AabbUniform>, is1: Seq<u32>, us2: Seq<AabbUniform>, is2: Seq<u32>)
    requires
        us1.len() <= u32::MAX,
        is1.len() <= u32::MAX,
        us2.len() <= u32::MAX,
        is2.len() <= u32::MAX,
        encoding(us1, is1) == encoding(us2, is2),
    ensures
        us1 == us2,
        is1 == is2,
{
    broadcast use vstd::array::axiom_array_ext_equal;

    let w1 = blob_words(us1, is1);
    let w2 = blob_words(us2, is2);
    let bytes = encoding(us1, is1);
    lemma_words_bytes(w1);
    lemma_words_bytes(w2);
    lemma_words_of_bytes(w1);
    lemma_words_read_back(w2, bytes, w1);
    assert(w1[0] == us1.len() as u32 && w2[0] == us2.len() as u32);
    assert(w1[1] == is1.len() as u32 && w2[1] == is2.len() as u32);
    lemma_nodes_words(us1);
    lemma_nodes_words(us2);
    let n = us1.len();
    let start = 2 + NODE_WORDS * n;
    assert forall|k: int| 0 <= k < is1.len() implies #[trigger] is1[k] == is2[k] by {
        assert(w1[start + k] == is1[k]);
        assert(w2[start + k] == is2[k]);
    }
    assert(is1 =~= is2);
    assert forall|k: int| 0 <= k < n implies #[trigger] us1[k] == us2[k] by {
        let a = us1[k];
        let b = us2[k];
        assert forall|t: int| 0 <= t < NODE_WORDS implies #[trigger] node_words(a)[t] == node_words(b)[t] by {
            assert(w1[2 + NODE_WORDS * k + t] == node_words(a)[t]);
            assert(w2[2 + NODE_WORDS * k + t] == node_words(b)[t]);
        }
        assert(node_words(a)[0] == node_words(b)[0]);
        assert(node_words(a)[1] == node_words(b)[1]);
        assert(node_words(a)[10] == node_words(b)[10]);
        assert(node_words(a)[11] == node_words(b)[11]);
        assert forall|axis: int| 0 <= axis < 3 implies #[trigger] a.bounds.min[axis] == b.bounds.min[axis]
            && a.bounds.max[axis] == b.bounds.max[axis] by {
            assert(node_words(a)[2 + axis] == node_words(b)[2 + axis]);
            assert(node_words(a)[6 + axis] == node_words(b)[6 + axis]);
            lemma_i32_round_trip(a.bounds.min[axis], 0);
            lemma_i32_round_trip(b.bounds.min[axis], 0);
            lemma_i32_round_trip(a.bounds.max[axis], 0);
            lemma_i32_round_trip(b.bounds.max[axis], 0);
            if axis == 0 {
            } else if axis == 1 {
            } else {
            }
        }
        assert(a.bounds.min =~= b.bounds.min);
        assert(a.bounds.max =~= b.bounds.max);
    }
    assert(us1 =~= us2);
}

} // verus!
