//! The on-disk record of one entry, shared by the write-ahead log and the
//! data blocks of SSTables:
//!
//! `key_len:u32 | key | has_value:u8 | [value_len:u32 | value] | sequence:u64`
//!
//! with integers little-endian and the value part present only when
//! `has_value` is 1.
use vstd::prelude::*;

use byteorder::{ByteOrder, LittleEndian, WriteBytesExt};
use vstd::bytes::{
    lemma_auto_spec_u32_to_from_le_bytes, lemma_auto_spec_u64_to_from_le_bytes,
    spec_u32_from_le_bytes, spec_u32_to_le_bytes, spec_u64_from_le_bytes, spec_u64_to_le_bytes,
};

use crate::{Entry, EntryView};

verus! {

/// byteorder's `WriteBytesExt::write_u32::<LittleEndian>` on a vector:
/// appends the four little-endian bytes of `n` (writing into a `Vec` does
/// not fail).
#[verifier::external_body]
pub(crate) fn push_u32_le(buf: &mut Vec<u8>, n: u32)
    ensures
        final(buf)@ == old(buf)@ + spec_u32_to_le_bytes(n),
{
    let _ = buf.write_u32::<LittleEndian>(n);
}

/// byteorder's `WriteBytesExt::write_u64::<LittleEndian>` on a vector:
/// appends the eight little-endian bytes of `n`.
#[verifier::external_body]
pub(crate) fn push_u64_le(buf: &mut Vec<u8>, n: u64)
    ensures
        final(buf)@ == old(buf)@ + spec_u64_to_le_bytes(n),
{
    let _ = buf.write_u64::<LittleEndian>(n);
}

/// byteorder's `LittleEndian::read_u32` on the four bytes at `pos`.
#[verifier::external_body]
pub(crate) fn read_u32_le(data: &[u8], pos: usize) -> (r: u32)
    requires
        pos + 4 <= data@.len(),
    ensures
        r == spec_u32_from_le_bytes(data@.subrange(pos as int, pos + 4)),
{
    LittleEndian::read_u32(&data[pos..pos + 4])
}

/// byteorder's `LittleEndian::read_u64` on the eight bytes at `pos`.
#[verifier::external_body]
pub(crate) fn read_u64_le(data: &[u8], pos: usize) -> (r: u64)
    requires
        pos + 8 <= data@.len(),
    ensures
        r == spec_u64_from_le_bytes(data@.subrange(pos as int, pos + 8)),
{
    LittleEndian::read_u64(&data[pos..pos + 8])
}

/// Append `bytes` to `buf`.
pub fn append_bytes(buf: &mut Vec<u8>, bytes: &[u8])
    ensures
        final(buf)@ == old(buf)@ + bytes@,
{
    let mut i: usize = 0;
    while i < bytes.len()
        invariant
            i <= bytes.len(),
            buf@ == old(buf)@ + bytes@.subrange(0, i as int),
        decreases bytes.len() - i,
    {
        buf.push(bytes[i]);
        i = i + 1;
        assert(buf@ =~= old(buf)@ + bytes@.subrange(0, i as int));
    }
    assert(bytes@.subrange(0, bytes.len() as int) =~= bytes@);
}

/// A copy of `data[start..end]`.
pub fn copy_range(data: &[u8], start: usize, end: usize) -> (r: Vec<u8>)
    requires
        start <= end <= data@.len(),
    ensures
        r@ == data@.subrange(start as int, end as int),
{
    let mut r: Vec<u8> = Vec::new();
    let mut i: usize = start;
    while i < end
        invariant
            start <= i <= end,
            end <= data@.len(),
            r@ == data@.subrange(start as int, i as int),
        decreases end - i,
    {
        r.push(data[i]);
        i = i + 1;
        assert(r@ =~= data@.subrange(start as int, i as int));
    }
    r
}

/// The record of one entry. A length that does not fit in 32 bits is
/// written truncated, as a cast would truncate it.
pub open spec fn encode_entry(e: EntryView) -> Seq<u8> {
    spec_u32_to_le_bytes(e.key.len() as u32) + e.key + match e.value {
        Some(v) => seq![1u8] + spec_u32_to_le_bytes(v.len() as u32) + v,
        None => seq![0u8],
    } + spec_u64_to_le_bytes(e.sequence)
}

/// The records of a sequence of entries, one after the other.
pub open spec fn encode_entries(s: Seq<EntryView>) -> Seq<u8>
    decreases s.len(),
{
    if s.len() == 0 {
        Seq::empty()
    } else {
        encode_entries(s.drop_last()) + encode_entry(s.last())
    }
}

/// The lengths in the record of `e` fit in 32 bits.
pub open spec fn entry_fits(e: EntryView) -> bool {
    &&& e.key.len() <= u32::MAX
    &&& match e.value {
        Some(v) => v.len() <= u32::MAX,
        None => true,
    }
}

/// Read the record that starts at `pos`: the entry and the position just
/// after the record, or `None` if the data ends inside the record.
pub open spec fn parse_entry(data: Seq<u8>, pos: int) -> Option<(EntryView, int)> {
    if pos < 0 || pos + 4 > data.len() {
        None
    } else {
        let klen = spec_u32_from_le_bytes(data.subrange(pos, pos + 4)) as int;
        let p1 = pos + 4 + klen;
        if p1 + 1 > data.len() {
            None
        } else {
            let key = data.subrange(pos + 4, p1);
            if data[p1] == 1 {
                if p1 + 5 > data.len() {
                    None
                } else {
                    let vlen = spec_u32_from_le_bytes(data.subrange(p1 + 1, p1 + 5)) as int;
                    let p2 = p1 + 5 + vlen;
                    if p2 + 8 > data.len() {
                        None
                    } else {
                        let value = data.subrange(p1 + 5, p2);
                        let seq = spec_u64_from_le_bytes(data.subrange(p2, p2 + 8));
                        Some((EntryView { key, value: Some(value), sequence: seq }, p2 + 8))
                    }
                }
            } else {
                let p2 = p1 + 1;
                if p2 + 8 > data.len() {
                    None
                } else {
                    let seq = spec_u64_from_le_bytes(data.subrange(p2, p2 + 8));
                    Some((EntryView { key, value: None, sequence: seq }, p2 + 8))
                }
            }
        }
    }
}

/// Read `n` records one after the other from `pos`.
pub open spec fn parse_entries(data: Seq<u8>, pos: int, n: nat) -> Option<(Seq<EntryView>, int)>
    decreases n,
{
    if n == 0 {
        Some((Seq::empty(), pos))
    } else {
        match parse_entries(data, pos, (n - 1) as nat) {
            Some((s, p)) => match parse_entry(data, p) {
                Some((e, q)) => Some((s.push(e), q)),
                None => None,
            },
            None => None,
        }
    }
}

/// Append the record of `e` to `buf`.
pub fn write_entry(buf: &mut Vec<u8>, e: &Entry)
    ensures
        final(buf)@ == old(buf)@ + encode_entry(e@),
{
    let ghost start = buf@;
    push_u32_le(buf, e.key.len() as u32);
    append_bytes(buf, e.key.as_slice());
    match &e.value {
        Some(v) => {
            buf.push(1u8);
            push_u32_le(buf, v.len() as u32);
            append_bytes(buf, v.as_slice());
        },
        None => {
            buf.push(0u8);
        },
    }
    push_u64_le(buf, e.sequence);
    proof {
        let mid = match e@.value {
            Some(v) => seq![1u8] + spec_u32_to_le_bytes(v.len() as u32) + v,
            None => seq![0u8],
        };
        assert(buf@ =~= start + (spec_u32_to_le_bytes(e.key@.len() as u32) + e.key@ + mid
            + spec_u64_to_le_bytes(e.sequence)));
    }
}

/// Read the record that starts at `pos`.
pub fn read_entry(data: &[u8], pos: usize) -> (r: Option<(Entry, usize)>)
    ensures
        match r {
            Some((e, q)) => parse_entry(data@, pos as int) == Some((e@, q as int)),
            None => parse_entry(data@, pos as int) is None,
        },
{
    if data.len() < 4 || pos > data.len() - 4 {
        return None;
    }
    let klen = read_u32_le(data, pos) as usize;
    let p0 = pos + 4;
    if klen > data.len() - p0 || data.len() - p0 - klen < 1 {
        return None;
    }
    let p1 = p0 + klen;
    let key = copy_range(data, p0, p1);
    let hv = data[p1];
    let mut p2 = p1 + 1;
    let value = if hv == 1 {
        if data.len() - p2 < 4 {
            return None;
        }
        let vlen = read_u32_le(data, p2) as usize;
        let p3 = p2 + 4;
        if vlen > data.len() - p3 {
            return None;
        }
        let v = copy_range(data, p3, p3 + vlen);
        p2 = p3 + vlen;
        Some(v)
    } else {
        None
    };
    if data.len() - p2 < 8 {
        return None;
    }
    let sequence = read_u64_le(data, p2);
    let e = Entry { key, value, sequence };
    proof {
        assert(e@ == parse_entry(data@, pos as int).unwrap().0);
    }
    Some((e, p2 + 8))
}

/// A record read back from where it was written gives the entry back.
pub proof fn lemma_parse_encoded_entry(pre: Seq<u8>, e: EntryView, post: Seq<u8>)
    requires
        entry_fits(e),
    ensures
        parse_entry(pre + encode_entry(e) + post, pre.len() as int) == Some(
            (e, (pre.len() + encode_entry(e).len()) as int),
        ),
{
    lemma_auto_spec_u32_to_from_le_bytes();
    lemma_auto_spec_u64_to_from_le_bytes();
    let data = pre + encode_entry(e) + post;
    let pos = pre.len() as int;
    let klen_bytes = spec_u32_to_le_bytes(e.key.len() as u32);
    assert(data.subrange(pos, pos + 4) =~= klen_bytes);
    let p1 = pos + 4 + e.key.len();
    assert(data.subrange(pos + 4, p1) =~= e.key);
    match e.value {
        Some(v) => {
            assert(data[p1] == 1u8);
            assert(data.subrange(p1 + 1, p1 + 5) =~= spec_u32_to_le_bytes(v.len() as u32));
            let p2 = p1 + 5 + v.len();
            assert(data.subrange(p1 + 5, p2) =~= v);
            assert(data.subrange(p2, p2 + 8) =~= spec_u64_to_le_bytes(e.sequence));
            assert(encode_entry(e).len() == 4 + e.key.len() + 5 + v.len() + 8);
        },
        None => {
            assert(data[p1] == 0u8);
            let p2 = p1 + 1;
            assert(data.subrange(p2, p2 + 8) =~= spec_u64_to_le_bytes(e.sequence));
            assert(encode_entry(e).len() == 4 + e.key.len() + 1 + 8);
        },
    }
}

/// Records written one after the other are read back one after the other.
pub proof fn lemma_parse_encoded_entries(pre: Seq<u8>, s: Seq<EntryView>, post: Seq<u8>)
    requires
        forall|i: int| 0 <= i < s.len() ==> entry_fits(#[trigger] s[i]),
    ensures
        parse_entries(pre + encode_entries(s) + post, pre.len() as int, s.len()) == Some(
            (s, (pre.len() + encode_entries(s).len()) as int),
        ),
    decreases s.len(),
{
    if s.len() > 0 {
        let init = s.drop_last();
        let last = s.last();
        let rest = encode_entry(last) + post;
        assert(pre + encode_entries(s) + post =~= pre + encode_entries(init) + rest);
        lemma_parse_encoded_entries(pre, init, rest);
        assert(pre + encode_entries(s) + post =~= (pre + encode_entries(init)) + encode_entry(last)
            + post);
        lemma_parse_encoded_entry(pre + encode_entries(init), last, post);
        assert(init.push(last) =~= s);
    }
}

} // verus!
