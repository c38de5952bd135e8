//! Standard Bloom filter over byte-string keys.
//!
//! A key is hashed `num_hashes` times with an FNV-1a style hash seeded by the
//! hash number; each hash picks one of `num_bits` bits. Inserting a key sets
//! its bits; a key may be present only if all its bits are set.
use vstd::prelude::*;

use vstd::bytes::{
    lemma_auto_spec_u32_to_from_le_bytes, lemma_auto_spec_u64_to_from_le_bytes,
    spec_u32_from_le_bytes, spec_u32_to_le_bytes, spec_u64_from_le_bytes, spec_u64_to_le_bytes,
    u32_from_le_bytes, u32_to_le_bytes, u64_from_le_bytes, u64_to_le_bytes,
};
use vstd::slice::slice_subrange;

use crate::engine::format::append_bytes;

verus! {

/// FNV-1a offset basis.
pub const FNV_OFFSET: u64 = 0xcbf29ce484222325;

/// FNV-1a prime.
pub const FNV_PRIME: u64 = 0x100000001b3;

/// The most hash functions a filter uses.
pub const MAX_HASHES: usize = 30;

/// Fold the bytes of `key` into the hash state `h`.
pub open spec fn fnv_fold(h: u64, key: Seq<u8>) -> u64
    decreases key.len(),
{
    if key.len() == 0 {
        h
    } else {
        fnv_fold((h ^ (key[0] as u64)).wrapping_mul(FNV_PRIME), key.drop_first())
    }
}

/// Hash number `seed` of `key`.
pub open spec fn key_hash(key: Seq<u8>, seed: u32) -> u64 {
    fnv_fold(FNV_OFFSET ^ (seed as u64), key)
}

/// The bit that hash number `seed` of `key` picks among `num_bits` bits.
pub open spec fn bit_position(key: Seq<u8>, seed: int, num_bits: usize) -> int {
    (key_hash(key, seed as u32) % (num_bits as u64)) as int
}

/// The number of hash functions for a given number of bits per element:
/// the whole part of `bits_per_element * ln 2`, at least 1 and at most 30,
/// with ln 2 taken as 6931471805599453 / 10^16.
pub open spec fn hashes_for(bits_per_element: usize) -> usize {
    if bits_per_element >= 44 {
        30
    } else {
        let k = ((bits_per_element as u64) * 6931471805599453) / 10000000000000000;
        if k < 1 {
            1
        } else {
            k as usize
        }
    }
}

/// The number of bits of a filter for `expected` elements.
pub open spec fn bits_for(expected: usize, bits_per_element: usize) -> usize {
    let n = expected * bits_per_element;
    if n < 64 {
        64
    } else if n > usize::MAX {
        usize::MAX
    } else {
        n as usize
    }
}

/// The little-endian bytes of the words, one after the other.
pub open spec fn encode_words(ws: Seq<u64>) -> Seq<u8>
    decreases ws.len(),
{
    if ws.len() == 0 {
        Seq::empty()
    } else {
        encode_words(ws.drop_last()) + spec_u64_to_le_bytes(ws.last())
    }
}

/// The stored form of a filter: `num_bits:u64 | num_hashes:u32 |
/// num_inserted:u64 | word_count:u64 | words:u64...`, little-endian.
pub open spec fn encode_bloom(num_bits: usize, num_hashes: usize, num_inserted: usize, ws: Seq<u64>) -> Seq<u8> {
    spec_u64_to_le_bytes(num_bits as u64) + spec_u32_to_le_bytes(num_hashes as u32)
        + spec_u64_to_le_bytes(num_inserted as u64) + spec_u64_to_le_bytes(ws.len() as u64)
        + encode_words(ws)
}

/// The word count recorded in stored data of at least 28 bytes.
pub open spec fn stored_word_count(data: Seq<u8>) -> u64 {
    spec_u64_from_le_bytes(data.subrange(20, 28))
}

/// Word `i` of stored data: its eight bytes if the data holds them, else 0.
pub open spec fn stored_word(data: Seq<u8>, i: int) -> u64 {
    if 28 + i * 8 + 8 <= data.len() {
        spec_u64_from_le_bytes(data.subrange(28 + i * 8, 28 + i * 8 + 8))
    } else {
        0
    }
}

pub(crate) proof fn lemma_encode_words(ws: Seq<u64>)
    ensures
        encode_words(ws).len() == ws.len() * 8,
        forall|i: int|
            0 <= i < ws.len() ==> #[trigger] encode_words(ws).subrange(i * 8, i * 8 + 8)
                == spec_u64_to_le_bytes(ws[i]),
    decreases ws.len(),
{
    lemma_auto_spec_u64_to_from_le_bytes();
    if ws.len() > 0 {
        let init = ws.drop_last();
        lemma_encode_words(init);
        let e = encode_words(ws);
        assert forall|i: int| 0 <= i < ws.len() implies #[trigger] e.subrange(i * 8, i * 8 + 8)
            == spec_u64_to_le_bytes(ws[i]) by {
            if i < ws.len() - 1 {
                assert(e.subrange(i * 8, i * 8 + 8) =~= encode_words(init).subrange(i * 8, i * 8 + 8));
            } else {
                assert(e.subrange(i * 8, i * 8 + 8) =~= spec_u64_to_le_bytes(ws.last()));
            }
        }
    }
}

/// Reading back the stored form of a filter gives its fields and words.
pub proof fn lemma_bloom_encoding(num_bits: usize, num_hashes: usize, num_inserted: usize, ws: Seq<u64>)
    requires
        num_hashes <= u32::MAX,
        ws.len() <= u64::MAX,
    ensures
        ({
            let data = encode_bloom(num_bits, num_hashes, num_inserted, ws);
            &&& data.len() == 28 + ws.len() * 8
            &&& spec_u64_from_le_bytes(data.subrange(0, 8)) as usize == num_bits
            &&& spec_u32_from_le_bytes(data.subrange(8, 12)) as usize == num_hashes
            &&& spec_u64_from_le_bytes(data.subrange(12, 20)) as usize == num_inserted
            &&& stored_word_count(data) == ws.len()
            &&& forall|i: int| 0 <= i < ws.len() ==> #[trigger] stored_word(data, i) == ws[i]
        }),
{
    lemma_auto_spec_u64_to_from_le_bytes();
    lemma_auto_spec_u32_to_from_le_bytes();
    lemma_encode_words(ws);
    let data = encode_bloom(num_bits, num_hashes, num_inserted, ws);
    let words = encode_words(ws);
    assert(data.subrange(0, 8) =~= spec_u64_to_le_bytes(num_bits as u64));
    assert(data.subrange(8, 12) =~= spec_u32_to_le_bytes(num_hashes as u32));
    assert(data.subrange(12, 20) =~= spec_u64_to_le_bytes(num_inserted as u64));
    assert(data.subrange(20, 28) =~= spec_u64_to_le_bytes(ws.len() as u64));
    assert forall|i: int| 0 <= i < ws.len() implies #[trigger] stored_word(data, i) == ws[i] by {
        assert(data.subrange(28 + i * 8, 28 + i * 8 + 8) =~= words.subrange(i * 8, i * 8 + 8));
    }
}

/// Bit `j` of the word `w`.
pub open spec fn word_bit(w: u64, j: int) -> bool {
    (w >> (j as u64)) & 1 == 1
}

proof fn lemma_set_bit(w: u64, j: u64, i: u64)
    requires
        j < 64,
        i < 64,
    ensures
        ((w | (1u64 << j)) >> i) & 1 == (if i == j {
            1u64
        } else {
            (w >> i) & 1
        }),
{
    assert(((w | (1u64 << j)) >> i) & 1 == (if i == j {
        1u64
    } else {
        (w >> i) & 1
    })) by (bit_vector)
        requires
            j < 64,
            i < 64,
    ;
}

proof fn lemma_test_bit(w: u64, j: u64)
    requires
        j < 64,
    ensures
        (w & (1u64 << j) == 0) == !(((w >> j) & 1) == 1),
{
    assert((w & (1u64 << j) == 0) == !(((w >> j) & 1) == 1)) by (bit_vector)
        requires
            j < 64,
    ;
}

/// A filter made for `n` keys at `b` bits per key has `n * b` bits, and at
/// least 64; when `n * b` does not fit a `usize`, as many bits as a `usize`
/// counts.
pub proof fn lemma_filter_size(n: usize, b: usize)
    ensures
        bits_for(n, b) >= 64,
        n * b >= 64 && n * b <= usize::MAX ==> bits_for(n, b) == n * b,
        n * b < 64 ==> bits_for(n, b) == 64,
        n * b > usize::MAX ==> bits_for(n, b) == usize::MAX,
        bits_for(n, b) >= n * b || bits_for(n, b) == usize::MAX,
{
}

/// A filter at `b` bits per key uses the whole part of `b * ln 2` hash
/// functions (ln 2 taken to sixteen digits), at least one and at most
/// thirty; more bits per key never mean fewer hash functions.
pub proof fn lemma_hash_count(b: usize, b2: usize)
    ensures
        1 <= hashes_for(b) <= MAX_HASHES,
        b < 44 && hashes_for(b) > 1 ==> hashes_for(b) * 10000000000000000 <= b * 6931471805599453 < (
        hashes_for(b) + 1) * 10000000000000000,
        b * 6931471805599453 < 2 * 10000000000000000 ==> hashes_for(b) == 1,
        b >= 44 ==> hashes_for(b) == MAX_HASHES,
        b <= b2 ==> hashes_for(b) <= hashes_for(b2),
{
    let d: int = 10000000000000000;
    let x: int = (b as u64) * 6931471805599453;
    if b < 44 {
        assert(x == b * 6931471805599453);
        let k = x / d;
        assert(k * d <= x < (k + 1) * d) by (nonlinear_arith)
            requires
                d > 0,
                k == x / d,
                x >= 0,
        ;
        assert(k <= 30) by (nonlinear_arith)
            requires
                d == 10000000000000000,
                k == x / d,
                0 <= x <= 43 * 6931471805599453,
        ;
    }
    if b <= b2 && b2 < 44 {
        let x2: int = (b2 as u64) * 6931471805599453;
        assert(x <= x2) by (nonlinear_arith)
            requires
                x == b * 6931471805599453,
                x2 == b2 * 6931471805599453,
                b <= b2,
        ;
        assert(x / d <= x2 / d) by (nonlinear_arith)
            requires
                d > 0,
                0 <= x <= x2,
        ;
    }
}

/// Standard Bloom filter implementation.
pub struct BloomFilterIndex {
    bits: Vec<u64>,
    num_bits: usize,
    num_hashes: usize,
    num_inserted: usize,
}

impl BloomFilterIndex {
    /// The filter can be queried: it has bits, and all of them are stored.
    pub closed spec fn shape_ok(&self) -> bool {
        &&& self.num_bits > 0
        &&& self.num_bits <= self.bits@.len() * 64
    }

    /// A filter can be queried exactly when it has a bit and all of its
    /// bits are stored.
    pub proof fn lemma_shape(&self)
        ensures
            self.shape_ok() == (self.spec_num_bits() > 0 && self.spec_num_bits() <= self.words().len()
                * 64),
    {
    }

    /// A filter holds no more words than memory can.
    pub proof fn lemma_words_len(&self)
        ensures
            self.words().len() <= usize::MAX,
    {
        assert(self.bits@.len() == self.bits.len());
    }

    /// Filters with the same bits, hash count and words hold the same keys.
    pub proof fn lemma_same_filter(&self, other: &BloomFilterIndex)
        requires
            self.spec_num_bits() == other.spec_num_bits(),
            self.spec_num_hashes() == other.spec_num_hashes(),
            self.words() == other.words(),
        ensures
            forall|k: Seq<u8>| #[trigger] self.holds(k) == other.holds(k),
    {
        assert forall|k: Seq<u8>| #[trigger] self.holds(k) == other.holds(k) by {
            if self.holds(k) {
                assert forall|h: int| 0 <= h < other.spec_num_hashes() implies #[trigger] other.bit_is_set(
                    bit_position(k, h, other.spec_num_bits()),
                ) by {
                    assert(self.bit_is_set(bit_position(k, h, self.spec_num_bits())));
                }
            }
            if other.holds(k) {
                assert forall|h: int| 0 <= h < self.spec_num_hashes() implies #[trigger] self.bit_is_set(
                    bit_position(k, h, self.spec_num_bits()),
                ) by {
                    assert(other.bit_is_set(bit_position(k, h, other.spec_num_bits())));
                }
            }
        }
    }

    pub closed spec fn spec_num_bits(&self) -> usize {
        self.num_bits
    }

    pub closed spec fn spec_num_hashes(&self) -> usize {
        self.num_hashes
    }

    pub closed spec fn spec_num_inserted(&self) -> usize {
        self.num_inserted
    }

    /// The stored words of the bit array.
    pub closed spec fn words(&self) -> Seq<u64> {
        self.bits@
    }

    /// Whether bit `i` is set.
    pub closed spec fn bit_is_set(&self, i: int) -> bool {
        word_bit(self.bits@[i / 64], i % 64)
    }

    /// Every bit that `key` hashes to is set.
    pub open spec fn holds(&self, key: Seq<u8>) -> bool {
        forall|s: int|
            0 <= s < self.spec_num_hashes() ==> #[trigger] self.bit_is_set(
                bit_position(key, s, self.spec_num_bits()),
            )
    }

    /// Create a filter sized for `expected_elements` keys at
    /// `bits_per_element` bits each (at least 64 bits), with all bits clear.
    pub fn new(expected_elements: usize, bits_per_element: usize) -> (r: BloomFilterIndex)
        ensures
            r.shape_ok(),
            r.spec_num_bits() == bits_for(expected_elements, bits_per_element),
            r.spec_num_hashes() == hashes_for(bits_per_element),
            r.spec_num_bits() >= 64,
            expected_elements * bits_per_element <= usize::MAX ==> r.spec_num_bits() == if expected_elements
                * bits_per_element < 64 {
                64
            } else {
                expected_elements * bits_per_element
            },
            expected_elements * bits_per_element > usize::MAX ==> r.spec_num_bits() == usize::MAX,
            1 <= r.spec_num_hashes() <= MAX_HASHES,
            r.spec_num_inserted() == 0,
            r.words().len() == (r.spec_num_bits() + 63) / 64,
            forall|i: int| 0 <= i < r.words().len() ==> #[trigger] r.words()[i] == 0,
            forall|i: int| 0 <= i < r.spec_num_bits() ==> !#[trigger] r.bit_is_set(i),
            forall|i: int| r.spec_num_bits() <= i < r.words().len() * 64 ==> !#[trigger] r.bit_is_set(i),
    {
        let n: usize = match expected_elements.checked_mul(bits_per_element) {
            Some(n) => n,
            None => usize::MAX,
        };
        let num_bits: usize = if n < 64 {
            64
        } else {
            n
        };
        let num_hashes: usize = if bits_per_element >= 44 {
            30
        } else {
            let k: u64 = ((bits_per_element as u64) * 6931471805599453) / 10000000000000000;
            if k < 1 {
                1
            } else {
                k as usize
            }
        };
        let num_words = num_bits / 64 + if num_bits % 64 != 0 {
            1
        } else {
            0
        };
        let mut bits: Vec<u64> = Vec::with_capacity(num_words);
        let mut i: usize = 0;
        while i < num_words
            invariant
                i <= num_words,
                bits@.len() == i,
                forall|t: int| 0 <= t < i ==> bits@[t] == 0,
            decreases num_words - i,
        {
            bits.push(0);
            i = i + 1;
        }
        let r = BloomFilterIndex { bits, num_bits, num_hashes, num_inserted: 0 };
        proof {
            assert forall|i: int| 0 <= i < r.words().len() * 64 implies !#[trigger] r.bit_is_set(i) by {
                let j = (i % 64) as u64;
                assert(r.bits@[i / 64] == 0);
                assert(((0u64 >> j) & 1) == 0) by (bit_vector);
            }
        }
        r
    }

    /// Hash number `seed` of `key` (FNV-1a style).
    fn hash(&self, key: &[u8], seed: u32) -> (r: u64)
        ensures
            r == key_hash(key@, seed),
    {
        let mut h: u64 = FNV_OFFSET ^ (seed as u64);
        let mut i: usize = 0;
        assert(key@.skip(0) =~= key@);
        while i < key.len()
            invariant
                i <= key.len(),
                fnv_fold(h, key@.skip(i as int)) == key_hash(key@, seed),
            decreases key.len() - i,
        {
            assert(key@.skip(i as int).drop_first() =~= key@.skip(i + 1));
            h = h ^ (key[i] as u64);
            h = h.wrapping_mul(FNV_PRIME);
            i = i + 1;
        }
        h
    }

    /// Set the bits of `key`.
    pub fn insert(&mut self, key: &[u8])
        requires
            old(self).shape_ok(),
            old(self).spec_num_inserted() < usize::MAX,
        ensures
            final(self).shape_ok(),
            final(self).spec_num_bits() == old(self).spec_num_bits(),
            final(self).spec_num_hashes() == old(self).spec_num_hashes(),
            final(self).spec_num_inserted() == old(self).spec_num_inserted() + 1,
            final(self).words().len() == old(self).words().len(),
            forall|i: int|
                0 <= i < old(self).spec_num_bits() ==> #[trigger] final(self).bit_is_set(i) == (
                old(self).bit_is_set(i) || exists|s: int|
                    0 <= s < old(self).spec_num_hashes() && i == bit_position(
                        key@,
                        s,
                        old(self).spec_num_bits(),
                    )),
            forall|i: int|
                old(self).spec_num_bits() <= i < old(self).words().len() * 64
                    ==> #[trigger] final(self).bit_is_set(i) == old(self).bit_is_set(i),
            final(self).holds(key@),
            forall|k: Seq<u8>| old(self).holds(k) ==> #[trigger] final(self).holds(k),
    {
        let ghost old_self = *self;
        let mut i: usize = 0;
        while i < self.num_hashes
            invariant
                self.shape_ok(),
                self.num_bits == old_self.num_bits,
                self.num_hashes == old_self.num_hashes,
                self.num_inserted == old_self.num_inserted,
                self.bits@.len() == old_self.bits@.len(),
                i <= self.num_hashes,
                forall|b: int|
                    0 <= b < self.num_bits ==> #[trigger] self.bit_is_set(b) == (old_self.bit_is_set(
                        b,
                    ) || exists|s: int|
                        0 <= s < i && b == bit_position(key@, s, self.num_bits)),
                forall|b: int|
                    self.num_bits <= b < self.bits@.len() * 64 ==> #[trigger] self.bit_is_set(b)
                        == old_self.bit_is_set(b),
            decreases self.num_hashes - i,
        {
            let h = self.hash(key, i as u32);
            let bit = (h % (self.num_bits as u64)) as usize;
            let w = bit / 64;
            let j = (bit % 64) as u64;
            let ghost pre = *self;
            let word = self.bits[w] | (1u64 << j);
            self.bits.set(w, word);
            proof {
                assert(bit as int == bit_position(key@, i as int, self.num_bits));
                assert forall|b: int| 0 <= b < self.num_bits implies #[trigger] self.bit_is_set(b)
                    == (old_self.bit_is_set(b) || exists|s: int|
                    0 <= s < i + 1 && b == bit_position(key@, s, self.num_bits)) by {
                    if b / 64 == w as int {
                        lemma_set_bit(pre.bits@[w as int], j, (b % 64) as u64);
                        if b == bit as int {
                            assert(0 <= i < i + 1 && b == bit_position(key@, i as int, self.num_bits));
                        } else {
                            assert(pre.bit_is_set(b) == self.bit_is_set(b));
                            if exists|s: int| 0 <= s < i + 1 && b == bit_position(key@, s, self.num_bits) {
                                let s = choose|s: int|
                                    0 <= s < i + 1 && b == bit_position(key@, s, self.num_bits);
                                assert(s != i);
                            }
                        }
                    } else {
                        assert(pre.bit_is_set(b) == self.bit_is_set(b));
                        if exists|s: int| 0 <= s < i + 1 && b == bit_position(key@, s, self.num_bits) {
                            let s = choose|s: int|
                                0 <= s < i + 1 && b == bit_position(key@, s, self.num_bits);
                            assert(s != i);
                        }
                    }
                }
                assert forall|b: int| self.num_bits <= b < self.bits@.len() * 64 implies #[trigger] self.bit_is_set(b)
                    == old_self.bit_is_set(b) by {
                    if b / 64 == w as int {
                        lemma_set_bit(pre.bits@[w as int], j, (b % 64) as u64);
                        assert(b != bit as int);
                    }
                    assert(pre.bit_is_set(b) == self.bit_is_set(b));
                }
            }
            i = i + 1;
        }
        proof {
            assert forall|s: int| 0 <= s < self.spec_num_hashes() implies #[trigger] self.bit_is_set(
                bit_position(key@, s, self.spec_num_bits()),
            ) by {
                let b = bit_position(key@, s, self.num_bits);
                assert(0 <= b < self.num_bits);
                assert(0 <= s < self.num_hashes && b == bit_position(key@, s, self.num_bits));
            }
            assert forall|k: Seq<u8>| old_self.holds(k) implies #[trigger] self.holds(k) by {
                assert forall|s: int| 0 <= s < self.spec_num_hashes() implies #[trigger] self.bit_is_set(
                    bit_position(k, s, self.spec_num_bits()),
                ) by {
                    let b = bit_position(k, s, self.num_bits);
                    assert(old_self.bit_is_set(bit_position(k, s, old_self.spec_num_bits())));
                    assert(0 <= b < self.num_bits);
                }
            }
        }
        let ghost mid = *self;
        self.num_inserted = self.num_inserted + 1;
        proof {
            assert forall|i: int| #[trigger] self.bit_is_set(i) == mid.bit_is_set(i) by {}
            assert forall|k: Seq<u8>| mid.holds(k) implies #[trigger] self.holds(k) by {
                assert forall|s: int| 0 <= s < self.spec_num_hashes() implies #[trigger] self.bit_is_set(
                    bit_position(k, s, self.spec_num_bits()),
                ) by {
                    assert(mid.bit_is_set(bit_position(k, s, mid.spec_num_bits())));
                }
            }
        }
    }

    /// The bits that hashes `0..s` of `key` test are all set.
    pub open spec fn set_before(&self, key: Seq<u8>, s: int) -> bool {
        forall|t: int|
            0 <= t < s ==> #[trigger] self.bit_is_set(bit_position(key, t, self.spec_num_bits()))
    }

    /// Hash `s` of `key` picks a bit among at least one, in a stored word.
    pub open spec fn probe_in_range(&self, key: Seq<u8>, s: int) -> bool {
        &&& self.spec_num_bits() > 0
        &&& bit_position(key, s, self.spec_num_bits()) < self.words().len() * 64
    }

    /// A query of `key` reads only stored words: every bit it tests, up to
    /// the first clear one, lies in a stored word.
    pub open spec fn probe_ok(&self, key: Seq<u8>) -> bool {
        forall|s: int|
            0 <= s < self.spec_num_hashes() && #[trigger] self.set_before(key, s) ==> self.probe_in_range(
                key,
                s,
            )
    }

    /// A filter that can be queried can be queried for any key.
    pub proof fn lemma_probe_ok(&self, key: Seq<u8>)
        requires
            self.shape_ok(),
        ensures
            self.probe_ok(key),
    {
        assert forall|s: int| 0 <= s < self.spec_num_hashes() && #[trigger] self.set_before(key, s) implies self.probe_in_range(
            key,
            s,
        ) by {
            assert(bit_position(key, s, self.num_bits) < self.num_bits);
        }
    }

    /// Whether `key` may have been inserted, testing its bits in turn until
    /// one is clear; `None` when a bit to test lies outside the stored
    /// words (or there are no bits to pick from).
    pub fn might_contain_checked(&self, key: &[u8]) -> (r: Option<bool>)
        ensures
            r is None <==> !self.probe_ok(key@),
            r matches Some(b) ==> b == self.holds(key@),
    {
        let mut i: usize = 0;
        while i < self.num_hashes
            invariant
                i <= self.num_hashes,
                self.set_before(key@, i as int),
                forall|s: int| 0 <= s < i ==> #[trigger] self.probe_in_range(key@, s),
            decreases self.num_hashes - i,
        {
            if self.num_bits == 0 {
                proof {
                    assert(!self.probe_in_range(key@, i as int));
                }
                return None;
            }
            let h = self.hash(key, i as u32);
            let bit = (h % (self.num_bits as u64)) as usize;
            let w = bit / 64;
            assert(bit as int == bit_position(key@, i as int, self.num_bits));
            if w >= self.bits.len() {
                proof {
                    assert(!self.probe_in_range(key@, i as int));
                }
                return None;
            }
            let j = (bit % 64) as u64;
            proof {
                lemma_test_bit(self.bits@[w as int], j);
            }
            if self.bits[w] & (1u64 << j) == 0 {
                proof {
                    assert(!self.bit_is_set(bit_position(key@, i as int, self.spec_num_bits())));
                    assert forall|s: int|
                        0 <= s < self.spec_num_hashes() && #[trigger] self.set_before(key@, s) implies self.probe_in_range(
                        key@,
                        s,
                    ) by {
                        if s > i {
                            assert(self.bit_is_set(bit_position(key@, i as int, self.spec_num_bits())));
                        }
                    }
                }
                return Some(false);
            }
            proof {
                assert(self.probe_in_range(key@, i as int));
                assert forall|t: int| 0 <= t < i + 1 implies #[trigger] self.bit_is_set(
                    bit_position(key@, t, self.spec_num_bits()),
                ) by {
                    if t < i {
                        assert(self.set_before(key@, i as int));
                    }
                }
            }
            i = i + 1;
        }
        proof {
            assert forall|s: int|
                0 <= s < self.spec_num_hashes() && #[trigger] self.set_before(key@, s) implies self.probe_in_range(
                key@,
                s,
            ) by {}
            assert forall|s: int| 0 <= s < self.spec_num_hashes() implies #[trigger] self.bit_is_set(
                bit_position(key@, s, self.spec_num_bits()),
            ) by {}
        }
        Some(true)
    }

    /// Whether `key` may have been inserted: all of its bits are set.
    pub fn might_contain(&self, key: &[u8]) -> (r: bool)
        requires
            self.probe_ok(key@),
        ensures
            r == self.holds(key@),
    {
        match self.might_contain_checked(key) {
            Some(b) => b,
            None => false,
        }
    }

    /// The stored form of the filter.
    pub fn serialize(&self) -> (r: Vec<u8>)
        ensures
            r@ == encode_bloom(
                self.spec_num_bits(),
                self.spec_num_hashes(),
                self.spec_num_inserted(),
                self.words(),
            ),
    {
        let mut data: Vec<u8> = Vec::new();
        let b = u64_to_le_bytes(self.num_bits as u64);
        append_bytes(&mut data, b.as_slice());
        let b = u32_to_le_bytes(self.num_hashes as u32);
        append_bytes(&mut data, b.as_slice());
        let b = u64_to_le_bytes(self.num_inserted as u64);
        append_bytes(&mut data, b.as_slice());
        let b = u64_to_le_bytes(self.bits.len() as u64);
        append_bytes(&mut data, b.as_slice());
        let ghost header = data@;
        let mut i: usize = 0;
        assert(self.bits@.subrange(0, 0) =~= Seq::<u64>::empty());
        while i < self.bits.len()
            invariant
                i <= self.bits.len(),
                data@ == header + encode_words(self.bits@.subrange(0, i as int)),
            decreases self.bits.len() - i,
        {
            let b = u64_to_le_bytes(self.bits[i]);
            append_bytes(&mut data, b.as_slice());
            i = i + 1;
            assert(self.bits@.subrange(0, i as int).drop_last() =~= self.bits@.subrange(0, i - 1));
        }
        assert(self.bits@.subrange(0, self.bits.len() as int) =~= self.bits@);
        data
    }

    /// Rebuild a filter from its stored form. Data shorter than the 28-byte
    /// header gives the filter `new(1, 10)`; words the data does not hold
    /// read as 0.
    pub fn deserialize(data: &[u8]) -> (r: BloomFilterIndex)
        requires
            data@.len() >= 28 ==> stored_word_count(data@) <= (isize::MAX as u64) / 8,
        ensures
            read_from(r, data@),
    {
        if data.len() < 28 {
            let r = Self::new(1, 10);
            assert(r.words() =~= seq![0u64]);
            return r;
        }
        let num_bits = u64_from_le_bytes(slice_subrange(data, 0, 8)) as usize;
        let num_hashes = u32_from_le_bytes(slice_subrange(data, 8, 12)) as usize;
        let num_inserted = u64_from_le_bytes(slice_subrange(data, 12, 20)) as usize;
        let count = u64_from_le_bytes(slice_subrange(data, 20, 28));
        let bits_len = count as usize;
        let mut bits: Vec<u64> = Vec::new();
        let mut i: usize = 0;
        while i < bits_len
            invariant
                bits_len == count,
                count <= (isize::MAX as u64) / 8,
                count == stored_word_count(data@),
                i <= bits_len,
                bits@.len() == i,
                forall|t: int| 0 <= t < i ==> #[trigger] bits@[t] == stored_word(data@, t),
            decreases bits_len - i,
        {
            let offset = 28 + i * 8;
            if offset <= data.len() && data.len() - offset >= 8 {
                bits.push(u64_from_le_bytes(slice_subrange(data, offset, offset + 8)));
            } else {
                bits.push(0);
            }
            i = i + 1;
        }
        BloomFilterIndex { bits, num_bits, num_hashes, num_inserted }
    }

    /// Whether the filter can be queried.
    pub fn is_queryable(&self) -> (r: bool)
        ensures
            r == self.shape_ok(),
    {
        self.num_bits > 0 && self.num_bits / 64 <= self.bits.len() && (self.num_bits / 64
            < self.bits.len() || self.num_bits % 64 == 0)
    }
}

/// No false negatives: in a filter that took the keys `keys` one insertion
/// after another (`fs[i + 1]` being `fs[i]` after inserting `keys[i]`),
/// every inserted key may be present.
pub proof fn lemma_no_false_negatives(fs: Seq<BloomFilterIndex>, keys: Seq<Seq<u8>>)
    requires
        fs.len() == keys.len() + 1,
        forall|i: int|
            #![trigger keys[i]]
            0 <= i < keys.len() ==> fs[i + 1].holds(keys[i]) && forall|k: Seq<u8>|
                fs[i].holds(k) ==> #[trigger] fs[i + 1].holds(k),
    ensures
        forall|i: int| 0 <= i < keys.len() ==> fs[keys.len() as int].holds(#[trigger] keys[i]),
    decreases keys.len(),
{
    if keys.len() > 0 {
        let n = keys.len() - 1;
        lemma_no_false_negatives(fs.drop_last(), keys.drop_last());
        assert forall|i: int| 0 <= i < keys.len() implies fs[keys.len() as int].holds(#[trigger] keys[i]) by {
            assert(keys[n] == keys[n]);
            if i < n {
                assert(keys.drop_last()[i] == keys[i]);
                assert(fs.drop_last()[n].holds(keys[i]));
            }
        }
    }
}

/// `r` is the filter read from stored `data`: the filter `new(1, 10)` when
/// the data is shorter than its 28-byte header; otherwise the header's
/// fields, and the stored words, 0 where the data does not hold one.
pub open spec fn read_from(r: BloomFilterIndex, data: Seq<u8>) -> bool {
    &&& data.len() < 28 ==> {
        &&& r.spec_num_bits() == 64
        &&& r.spec_num_hashes() == 6
        &&& r.spec_num_inserted() == 0
        &&& r.words() == seq![0u64]
    }
    &&& data.len() >= 28 ==> {
        &&& r.spec_num_bits() == spec_u64_from_le_bytes(data.subrange(0, 8)) as usize
        &&& r.spec_num_hashes() == spec_u32_from_le_bytes(data.subrange(8, 12)) as usize
        &&& r.spec_num_inserted() == spec_u64_from_le_bytes(data.subrange(12, 20)) as usize
        &&& r.words().len() == stored_word_count(data)
        &&& forall|i: int| 0 <= i < r.words().len() ==> #[trigger] r.words()[i] == stored_word(data, i)
    }
}

/// A filter read back from its stored form stores the same bytes and may
/// hold exactly the keys the filter may hold.
pub proof fn lemma_serialize_roundtrip(f: BloomFilterIndex, g: BloomFilterIndex)
    requires
        f.spec_num_hashes() <= u32::MAX,
        read_from(
            g,
            encode_bloom(f.spec_num_bits(), f.spec_num_hashes(), f.spec_num_inserted(), f.words()),
        ),
    ensures
        encode_bloom(g.spec_num_bits(), g.spec_num_hashes(), g.spec_num_inserted(), g.words())
            == encode_bloom(f.spec_num_bits(), f.spec_num_hashes(), f.spec_num_inserted(), f.words()),
        forall|k: Seq<u8>| #[trigger] g.holds(k) == f.holds(k),
{
    f.lemma_words_len();
    lemma_bloom_encoding(f.spec_num_bits(), f.spec_num_hashes(), f.spec_num_inserted(), f.words());
    assert(g.words() =~= f.words());
    g.lemma_same_filter(&f);
}

} // verus!
