//! The parts of the learned index that are plain integer and byte work:
//! reading a key as a number, and the stored form of a model.
//!
//! A model is stored as `trained:u8 | key_min:u64 | key_max:u64 |
//! offset_max:f64 | max_error:f64 | hidden:u32 | w1_scale:f64 |
//! w1:i8... | b1:f64... | w2_scale:f64 | w2:i8... | b2:f64`, little-endian;
//! here each 64-bit floating-point field is held as its bit pattern.
use vstd::prelude::*;

use vstd::bytes::{
    lemma_auto_spec_u32_to_from_le_bytes, lemma_auto_spec_u64_to_from_le_bytes,
    spec_u32_from_le_bytes, spec_u32_to_le_bytes, spec_u64_from_le_bytes, spec_u64_to_le_bytes,
    u32_from_le_bytes, u32_to_le_bytes, u64_from_le_bytes, u64_to_le_bytes,
};
use vstd::slice::slice_subrange;

use crate::engine::format::append_bytes;
use crate::index::bloom::{encode_words, lemma_encode_words};

verus! {

/// The first eight bytes of `key`, padded with zero bytes, read as a
/// big-endian number.
pub open spec fn key_number(key: Seq<u8>) -> nat {
    prefix_number(key, 8)
}

/// The first `n` bytes of `key` (zero where the key is shorter) read as a
/// big-endian number.
pub open spec fn prefix_number(key: Seq<u8>, n: nat) -> nat
    decreases n,
{
    if n == 0 {
        0
    } else {
        let b: nat = if n - 1 < key.len() {
            key[n - 1] as nat
        } else {
            0
        };
        prefix_number(key, (n - 1) as nat) * 256 + b
    }
}

/// 256 to the power `n`.
pub open spec fn pow256(n: nat) -> nat
    decreases n,
{
    if n == 0 {
        1
    } else {
        pow256((n - 1) as nat) * 256
    }
}

proof fn lemma_prefix_number_bound(key: Seq<u8>, n: nat)
    ensures
        prefix_number(key, n) < pow256(n),
    decreases n,
{
    if n > 0 {
        lemma_prefix_number_bound(key, (n - 1) as nat);
        let p = pow256((n - 1) as nat);
        let x = prefix_number(key, (n - 1) as nat);
        let b: nat = if n - 1 < key.len() {
            key[n - 1] as nat
        } else {
            0
        };
        assert(x * 256 + b < p * 256) by (nonlinear_arith)
            requires
                x < p,
                b < 256,
        ;
    }
}

proof fn lemma_pow256_monotone(a: nat, b: nat)
    requires
        a <= b,
    ensures
        pow256(a) <= pow256(b),
    decreases b,
{
    if a < b {
        lemma_pow256_monotone(a, (b - 1) as nat);
    }
}

/// The number a learned index uses for `key`: its first eight bytes, padded
/// with zeros, read big-endian.
pub fn key_to_u64(key: &[u8]) -> (r: u64)
    ensures
        r == key_number(key@),
{
    let mut r: u64 = 0;
    let mut i: usize = 0;
    while i < 8
        invariant
            i <= 8,
            r == prefix_number(key@, i as nat),
        decreases 8 - i,
    {
        proof {
            lemma_prefix_number_bound(key@, (i + 1) as nat);
            lemma_pow256_monotone((i + 1) as nat, 8);
            reveal_with_fuel(pow256, 9);
            assert(pow256(8) == 0x1_0000_0000_0000_0000);
        }
        let b: u64 = if i < key.len() {
            key[i] as u64
        } else {
            0
        };
        r = r * 256 + b;
        i = i + 1;
    }
    r
}

/// The number of hidden units of a model.
pub const HIDDEN_SIZE: usize = 32;

/// A learned model as it is stored, each 64-bit floating-point field held
/// as its bit pattern: whether it was trained, the range of key numbers it
/// saw, the largest offset and its error bound, and the scales, quantized
/// weights and biases of its two layers.
pub struct StoredModel {
    pub trained: bool,
    pub key_min: u64,
    pub key_max: u64,
    pub offset_max: u64,
    pub max_error: u64,
    pub w1_scale: u64,
    pub w1_q: Vec<i8>,
    pub b1: Vec<u64>,
    pub w2_scale: u64,
    pub w2_q: Vec<i8>,
    pub b2: u64,
}

/// The bytes of quantized weights, each as its two's-complement byte.
pub open spec fn weight_bytes(w: Seq<i8>) -> Seq<u8> {
    w.map_values(|x: i8| x as u8)
}

/// The stored form of `m`. The recorded number of hidden units is always
/// [`HIDDEN_SIZE`].
pub open spec fn model_bytes(m: StoredModel) -> Seq<u8> {
    seq![if m.trained { 1u8 } else { 0u8 }] + spec_u64_to_le_bytes(m.key_min) + spec_u64_to_le_bytes(
        m.key_max,
    ) + spec_u64_to_le_bytes(m.offset_max) + spec_u64_to_le_bytes(m.max_error) + spec_u32_to_le_bytes(
        HIDDEN_SIZE as u32,
    ) + spec_u64_to_le_bytes(m.w1_scale) + weight_bytes(m.w1_q@) + encode_words(m.b1@)
        + spec_u64_to_le_bytes(m.w2_scale) + weight_bytes(m.w2_q@) + spec_u64_to_le_bytes(m.b2)
}

/// The stored form of a model.
pub fn encode_model(m: &StoredModel) -> (r: Vec<u8>)
    ensures
        r@ == model_bytes(*m),
{
    let mut data: Vec<u8> = Vec::new();
    data.push(if m.trained { 1u8 } else { 0u8 });
    let b = u64_to_le_bytes(m.key_min);
    append_bytes(&mut data, b.as_slice());
    let b = u64_to_le_bytes(m.key_max);
    append_bytes(&mut data, b.as_slice());
    let b = u64_to_le_bytes(m.offset_max);
    append_bytes(&mut data, b.as_slice());
    let b = u64_to_le_bytes(m.max_error);
    append_bytes(&mut data, b.as_slice());
    let b = u32_to_le_bytes(HIDDEN_SIZE as u32);
    append_bytes(&mut data, b.as_slice());
    let b = u64_to_le_bytes(m.w1_scale);
    append_bytes(&mut data, b.as_slice());
    push_weights(&mut data, &m.w1_q);
    let ghost before_b1 = data@;
    let mut i: usize = 0;
    assert(m.b1@.subrange(0, 0) =~= Seq::<u64>::empty());
    while i < m.b1.len()
        invariant
            i <= m.b1.len(),
            data@ == before_b1 + encode_words(m.b1@.subrange(0, i as int)),
        decreases m.b1.len() - i,
    {
        let b = u64_to_le_bytes(m.b1[i]);
        append_bytes(&mut data, b.as_slice());
        i = i + 1;
        assert(m.b1@.subrange(0, i as int).drop_last() =~= m.b1@.subrange(0, i - 1));
    }
    assert(m.b1@.subrange(0, m.b1.len() as int) =~= m.b1@);
    let b = u64_to_le_bytes(m.w2_scale);
    append_bytes(&mut data, b.as_slice());
    push_weights(&mut data, &m.w2_q);
    let b = u64_to_le_bytes(m.b2);
    append_bytes(&mut data, b.as_slice());
    assert(data@ =~= model_bytes(*m));
    data
}

/// Append the bytes of quantized weights.
fn push_weights(data: &mut Vec<u8>, w: &Vec<i8>)
    ensures
        final(data)@ == old(data)@ + weight_bytes(w@),
{
    let mut i: usize = 0;
    while i < w.len()
        invariant
            i <= w.len(),
            data@ == old(data)@ + weight_bytes(w@.subrange(0, i as int)),
        decreases w.len() - i,
    {
        data.push(w[i] as u8);
        i = i + 1;
        assert(weight_bytes(w@.subrange(0, i as int)) =~= weight_bytes(w@.subrange(0, i - 1)).push(
            w@[i - 1] as u8,
        ));
    }
    assert(w@.subrange(0, w.len() as int) =~= w@);
}

/// The smaller of `a` and `b`.
pub open spec fn smaller(a: int, b: int) -> int {
    if a < b {
        a
    } else {
        b
    }
}

/// The number of hidden units stored bytes are read with: the recorded
/// number, at most [`HIDDEN_SIZE`].
pub open spec fn stored_hidden(d: Seq<u8>) -> int {
    smaller(spec_u32_from_le_bytes(d.subrange(33, 37)) as int, HIDDEN_SIZE as int)
}

/// The 64-bit little-endian number at `p`.
pub open spec fn le64_at(d: Seq<u8>, p: int) -> u64 {
    spec_u64_from_le_bytes(d.subrange(p, p + 8))
}

/// Where the first layer's weights end: one byte per hidden unit, as far as
/// the bytes go.
pub open spec fn w1_end(d: Seq<u8>) -> int {
    45 + smaller(stored_hidden(d), d.len() - 45)
}

/// How many first-layer biases the bytes hold in full (at most one per
/// hidden unit).
pub open spec fn b1_count(d: Seq<u8>) -> int {
    smaller(stored_hidden(d), (d.len() - w1_end(d)) / 8)
}

/// Where the second layer's weights start: after the biases read and the
/// second layer's scale.
pub open spec fn w2_start(d: Seq<u8>) -> int {
    w1_end(d) + 8 * b1_count(d) + 8
}

/// Where the second layer's weights end.
pub open spec fn w2_end(d: Seq<u8>) -> int {
    w2_start(d) + smaller(stored_hidden(d), d.len() - w2_start(d))
}

/// Stored bytes of at least the header's length hold both layer scales
/// where a reader takes them.
pub open spec fn model_readable(d: Seq<u8>) -> bool {
    d.len() >= 45 && w2_start(d) <= d.len()
}

/// `m` is the model read from stored bytes `d`: the header fields; one
/// weight and one bias per hidden unit, a weight being 0 where the bytes
/// end before it and a bias 0 where they end before its eight bytes; and
/// the second layer's bias, 0 when the bytes end before it.
pub open spec fn read_model(m: StoredModel, d: Seq<u8>) -> bool {
    let hs = stored_hidden(d);
    &&& m.trained == (d[0] == 1)
    &&& m.key_min == le64_at(d, 1)
    &&& m.key_max == le64_at(d, 9)
    &&& m.offset_max == le64_at(d, 17)
    &&& m.max_error == le64_at(d, 25)
    &&& m.w1_scale == le64_at(d, 37)
    &&& m.w1_q@ == Seq::new(
        hs as nat,
        |i: int|
            if 45 + i < d.len() {
                d[45 + i] as i8
            } else {
                0i8
            },
    )
    &&& m.b1@ == Seq::new(
        hs as nat,
        |i: int|
            if i < b1_count(d) {
                le64_at(d, w1_end(d) + 8 * i)
            } else {
                0u64
            },
    )
    &&& m.w2_scale == le64_at(d, w2_start(d) - 8)
    &&& m.w2_q@ == Seq::new(
        hs as nat,
        |i: int|
            if w2_start(d) + i < d.len() {
                d[w2_start(d) + i] as i8
            } else {
                0i8
            },
    )
    &&& m.b2 == (if w2_end(d) + 8 <= d.len() {
        le64_at(d, w2_end(d))
    } else {
        0u64
    })
}

/// Whether stored bytes can be read: shorter than the header, or holding
/// both layer scales where a reader takes them.
pub fn model_is_readable(data: &[u8]) -> (r: bool)
    ensures
        r == (data@.len() < 41 || model_readable(data@)),
{
    if data.len() < 41 {
        return true;
    }
    if data.len() < 45 {
        return false;
    }
    let hs = hidden_units(data);
    let w1 = 45 + if hs < data.len() - 45 {
        hs
    } else {
        data.len() - 45
    };
    let c = if hs < (data.len() - w1) / 8 {
        hs
    } else {
        (data.len() - w1) / 8
    };
    data.len() - w1 >= 8 * c + 8
}

/// The number of hidden units stored bytes are read with.
fn hidden_units(data: &[u8]) -> (r: usize)
    requires
        data@.len() >= 37,
    ensures
        r == stored_hidden(data@),
        r <= HIDDEN_SIZE,
{
    let h = u32_from_le_bytes(slice_subrange(data, 33, 37));
    if (h as usize) < HIDDEN_SIZE {
        h as usize
    } else {
        HIDDEN_SIZE
    }
}

/// Read quantized weights: one per hidden unit from `start`, each the next
/// byte while the bytes last and 0 after. The position after the bytes read.
fn read_weights(data: &[u8], start: usize, hs: usize) -> (r: (Vec<i8>, usize))
    requires
        start <= data@.len(),
    ensures
        r.0@ == Seq::new(
            hs as nat,
            |i: int|
                if start + i < data@.len() {
                    data@[start + i] as i8
                } else {
                    0i8
                },
        ),
        r.1 == start + smaller(hs as int, data@.len() - start),
{
    let mut w: Vec<i8> = Vec::new();
    let mut pos: usize = start;
    let mut i: usize = 0;
    while i < hs
        invariant
            start <= data@.len(),
            i <= hs,
            pos == start + smaller(i as int, data@.len() - start),
            w@ == Seq::new(
                i as nat,
                |j: int|
                    if start + j < data@.len() {
                        data@[start + j] as i8
                    } else {
                        0i8
                    },
            ),
        decreases hs - i,
    {
        let ghost pre = w@;
        if pos < data.len() {
            w.push(data[pos] as i8);
            pos = pos + 1;
        } else {
            w.push(0i8);
        }
        i = i + 1;
        assert(w@ =~= Seq::new(
            i as nat,
            |j: int|
                if start + j < data@.len() {
                    data@[start + j] as i8
                } else {
                    0i8
                },
        ));
    }
    (w, pos)
}

/// Read a stored model, or `None` for bytes shorter than the header (which
/// stand for a fresh, untrained model).
pub fn decode_model(data: &[u8]) -> (r: Option<StoredModel>)
    requires
        data@.len() >= 41 ==> model_readable(data@),
    ensures
        data@.len() < 41 <==> r is None,
        r matches Some(m) ==> read_model(m, data@),
{
    if data.len() < 41 {
        return None;
    }
    let d = Ghost(data@);
    let trained = data[0] == 1;
    let key_min = u64_from_le_bytes(slice_subrange(data, 1, 9));
    let key_max = u64_from_le_bytes(slice_subrange(data, 9, 17));
    let offset_max = u64_from_le_bytes(slice_subrange(data, 17, 25));
    let max_error = u64_from_le_bytes(slice_subrange(data, 25, 33));
    let hs = hidden_units(data);
    let w1_scale = u64_from_le_bytes(slice_subrange(data, 37, 45));
    let (w1_q, w1e) = read_weights(data, 45, hs);
    let mut b1: Vec<u64> = Vec::new();
    let mut pos: usize = w1e;
    let mut i: usize = 0;
    while i < hs
        invariant
            d@ == data@,
            model_readable(data@),
            hs == stored_hidden(data@),
            hs <= HIDDEN_SIZE,
            w1e == w1_end(data@),
            i <= hs,
            pos == w1e + 8 * smaller(i as int, b1_count(data@)),
            b1@ == Seq::new(
                i as nat,
                |j: int|
                    if j < b1_count(data@) {
                        le64_at(data@, w1_end(data@) + 8 * j)
                    } else {
                        0u64
                    },
            ),
        decreases hs - i,
    {
        if pos <= data.len() && data.len() - pos >= 8 {
            b1.push(u64_from_le_bytes(slice_subrange(data, pos, pos + 8)));
            pos = pos + 8;
        } else {
            b1.push(0u64);
        }
        i = i + 1;
        assert(b1@ =~= Seq::new(
            i as nat,
            |j: int|
                if j < b1_count(data@) {
                    le64_at(data@, w1_end(data@) + 8 * j)
                } else {
                    0u64
                },
        ));
    }
    let w2_scale = u64_from_le_bytes(slice_subrange(data, pos, pos + 8));
    let (w2_q, w2e) = read_weights(data, pos + 8, hs);
    let b2 = if w2e <= data.len() && data.len() - w2e >= 8 {
        u64_from_le_bytes(slice_subrange(data, w2e, w2e + 8))
    } else {
        0u64
    };
    Some(
        StoredModel {
            trained,
            key_min,
            key_max,
            offset_max,
            max_error,
            w1_scale,
            w1_q,
            b1,
            w2_scale,
            w2_q,
            b2,
        },
    )
}

/// A stored model reads back as the model that was stored, when each of
/// its layers has one weight and one bias per hidden unit.
pub proof fn lemma_model_roundtrip(m: StoredModel, back: StoredModel)
    requires
        m.w1_q@.len() == HIDDEN_SIZE,
        m.b1@.len() == HIDDEN_SIZE,
        m.w2_q@.len() == HIDDEN_SIZE,
        read_model(back, model_bytes(m)),
    ensures
        model_bytes(m).len() >= 41,
        model_readable(model_bytes(m)),
        back.trained == m.trained,
        back.key_min == m.key_min,
        back.key_max == m.key_max,
        back.offset_max == m.offset_max,
        back.max_error == m.max_error,
        back.w1_scale == m.w1_scale,
        back.w1_q@ == m.w1_q@,
        back.b1@ == m.b1@,
        back.w2_scale == m.w2_scale,
        back.w2_q@ == m.w2_q@,
        back.b2 == m.b2,
{
    lemma_auto_spec_u64_to_from_le_bytes();
    lemma_auto_spec_u32_to_from_le_bytes();
    lemma_encode_words(m.b1@);
    let d = model_bytes(m);
    let w1 = weight_bytes(m.w1_q@);
    let w2 = weight_bytes(m.w2_q@);
    let bw = encode_words(m.b1@);
    assert(d.len() == 381);
    assert(d[0] == (if m.trained { 1u8 } else { 0u8 }));
    assert(d.subrange(1, 9) =~= spec_u64_to_le_bytes(m.key_min));
    assert(d.subrange(9, 17) =~= spec_u64_to_le_bytes(m.key_max));
    assert(d.subrange(17, 25) =~= spec_u64_to_le_bytes(m.offset_max));
    assert(d.subrange(25, 33) =~= spec_u64_to_le_bytes(m.max_error));
    assert(d.subrange(33, 37) =~= spec_u32_to_le_bytes(HIDDEN_SIZE as u32));
    assert(d.subrange(37, 45) =~= spec_u64_to_le_bytes(m.w1_scale));
    assert(stored_hidden(d) == 32);
    assert(w1_end(d) == 77);
    assert(b1_count(d) == 32);
    assert(w2_start(d) == 341);
    assert(w2_end(d) == 373);
    assert(d.subrange(333, 341) =~= spec_u64_to_le_bytes(m.w2_scale));
    assert(d.subrange(373, 381) =~= spec_u64_to_le_bytes(m.b2));
    assert forall|i: int| 0 <= i < 32 implies (d[45 + i] as i8) == m.w1_q@[i] by {
        let x = m.w1_q@[i];
        assert(d[45 + i] == w1[i]);
        assert(((x as u8) as i8) == x) by (bit_vector);
    }
    assert(back.w1_q@ =~= m.w1_q@);
    assert forall|i: int| 0 <= i < 32 implies le64_at(d, 77 + 8 * i) == m.b1@[i] by {
        assert(d.subrange(77 + 8 * i, 77 + 8 * i + 8) =~= bw.subrange(i * 8, i * 8 + 8));
    }
    assert(back.b1@ =~= m.b1@);
    assert forall|i: int| 0 <= i < 32 implies (d[341 + i] as i8) == m.w2_q@[i] by {
        let x = m.w2_q@[i];
        assert(d[341 + i] == w2[i]);
        assert(((x as u8) as i8) == x) by (bit_vector);
    }
    assert(back.w2_q@ =~= m.w2_q@);
}

} // verus!
