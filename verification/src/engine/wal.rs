//! The write-ahead log: one record per write, in the entry record format,
//! appended in order. Replay reads records from the start and stops at the
//! first record that the log does not hold in full, so a record torn by a
//! crash in the middle of an append is dropped.
use vstd::prelude::*;

use crate::engine::format::{
    encode_entries, encode_entry, entry_fits, lemma_parse_encoded_entry, parse_entry, read_entry,
    write_entry,
};
use crate::versions::entries_view;
use crate::{Entry, EntryView};

verus! {

/// The entries a log holds from position `pos` on: records read one after
/// the other until one is not held in full.
pub open spec fn log_entries(data: Seq<u8>, pos: int) -> Seq<EntryView>
    decreases data.len() - pos,
{
    match parse_entry(data, pos) {
        Some((e, q)) => if pos < q <= data.len() {
            seq![e] + log_entries(data, q)
        } else {
            Seq::empty()
        },
        None => Seq::empty(),
    }
}

/// The bytes appended to the log for `entry`.
pub fn encode_record(entry: &Entry) -> (r: Vec<u8>)
    ensures
        r@ == encode_entry(entry@),
{
    let mut buf: Vec<u8> = Vec::new();
    write_entry(&mut buf, entry);
    assert(buf@ =~= encode_entry(entry@));
    buf
}

/// The entries held in the bytes of a log, in the order they were appended.
pub fn replay(data: &[u8]) -> (r: Vec<Entry>)
    ensures
        entries_view(r@) == log_entries(data@, 0),
{
    let mut entries: Vec<Entry> = Vec::new();
    let mut pos: usize = 0;
    let mut done = false;
    while !done
        invariant
            pos <= data@.len(),
            !done ==> log_entries(data@, 0) == entries_view(entries@) + log_entries(data@, pos as int),
            done ==> log_entries(data@, 0) == entries_view(entries@),
        decreases data@.len() - pos + (if done {
            0int
        } else {
            1int
        }),
    {
        match read_entry(data, pos) {
            Some((e, q)) => {
                proof {
                    lemma_parse_entry_advances(data@, pos as int);
                    assert(entries_view(entries@.push(e)) =~= entries_view(entries@) + seq![e@]);
                    assert(log_entries(data@, pos as int) == seq![e@] + log_entries(data@, q as int));
                    assert(entries_view(entries@) + (seq![e@] + log_entries(data@, q as int)) =~= (
                    entries_view(entries@) + seq![e@]) + log_entries(data@, q as int));
                }
                entries.push(e);
                pos = q;
            },
            None => {
                proof {
                    assert(entries_view(entries@) + Seq::<EntryView>::empty() =~= entries_view(
                        entries@,
                    ));
                }
                done = true;
            },
        }
    }
    entries
}

/// A record read from the log ends after it starts and within the log.
proof fn lemma_parse_entry_advances(data: Seq<u8>, pos: int)
    ensures
        parse_entry(data, pos) matches Some((e, q)) ==> pos < q <= data.len(),
{
}

/// Records appended one after the other are read back one after the other.
proof fn lemma_log_of_records(pre: Seq<u8>, s: Seq<EntryView>, post: Seq<u8>)
    requires
        forall|i: int| 0 <= i < s.len() ==> entry_fits(#[trigger] s[i]),
    ensures
        log_entries(pre + encode_entries(s) + post, pre.len() as int) == s + log_entries(
            pre + encode_entries(s) + post,
            (pre.len() + encode_entries(s).len()) as int,
        ),
    decreases s.len(),
{
    let data = pre + encode_entries(s) + post;
    if s.len() == 0 {
        assert(s + log_entries(data, pre.len() as int) =~= log_entries(data, pre.len() as int));
    } else {
        let e = s[0];
        let rest = s.drop_first();
        lemma_encode_entries_front(s);
        let pre2 = pre + encode_entry(e);
        assert(data =~= pre2 + encode_entries(rest) + post);
        assert(data =~= pre + encode_entry(e) + (encode_entries(rest) + post));
        lemma_parse_encoded_entry(pre, e, encode_entries(rest) + post);
        let q = (pre.len() + encode_entry(e).len()) as int;
        lemma_parse_entry_advances(data, pre.len() as int);
        assert(log_entries(data, pre.len() as int) == seq![e] + log_entries(data, q));
        assert forall|i: int| 0 <= i < rest.len() implies entry_fits(#[trigger] rest[i]) by {
            assert(rest[i] == s[i + 1]);
        }
        lemma_log_of_records(pre2, rest, post);
        assert(seq![e] + (rest + log_entries(data, (pre.len() + encode_entries(s).len()) as int)) =~= s
            + log_entries(data, (pre.len() + encode_entries(s).len()) as int));
    }
}

/// The records of a sequence start with the record of its first entry.
proof fn lemma_encode_entries_front(s: Seq<EntryView>)
    requires
        s.len() > 0,
    ensures
        encode_entries(s) == encode_entry(s[0]) + encode_entries(s.drop_first()),
    decreases s.len(),
{
    if s.len() == 1 {
        assert(s.drop_last() =~= Seq::<EntryView>::empty());
        assert(s.drop_first() =~= Seq::<EntryView>::empty());
        assert(encode_entries(s) =~= encode_entry(s[0]) + encode_entries(s.drop_first()));
    } else {
        lemma_encode_entries_front(s.drop_last());
        assert(s.drop_last().drop_first() =~= s.drop_first().drop_last());
        assert(s.drop_first().last() == s.last());
        assert(encode_entries(s) =~= encode_entry(s[0]) + encode_entries(s.drop_first()));
    }
}

/// Nothing is read where the log ends.
proof fn lemma_log_at_end(data: Seq<u8>)
    ensures
        log_entries(data, data.len() as int) == Seq::<EntryView>::empty(),
{
}

/// A log read back gives the entries written to it, in order.
pub proof fn lemma_replay_written(s: Seq<EntryView>)
    requires
        forall|i: int| 0 <= i < s.len() ==> entry_fits(#[trigger] s[i]),
    ensures
        log_entries(encode_entries(s), 0) == s,
{
    let data = encode_entries(s);
    assert(Seq::<u8>::empty() + encode_entries(s) + Seq::<u8>::empty() =~= data);
    lemma_log_of_records(Seq::empty(), s, Seq::empty());
    lemma_log_at_end(data);
    assert(s + Seq::<EntryView>::empty() =~= s);
}

/// A record torn by a crash (only its first `k` bytes written) is dropped
/// on replay, and the records before it are kept.
pub proof fn lemma_replay_torn(s: Seq<EntryView>, e: EntryView, k: int)
    requires
        forall|i: int| 0 <= i < s.len() ==> entry_fits(#[trigger] s[i]),
        entry_fits(e),
        0 <= k < encode_entry(e).len(),
    ensures
        log_entries(encode_entries(s) + encode_entry(e).subrange(0, k), 0) == s,
{
    let torn = encode_entry(e).subrange(0, k);
    let data = encode_entries(s) + torn;
    assert(Seq::<u8>::empty() + encode_entries(s) + torn =~= data);
    lemma_log_of_records(Seq::empty(), s, torn);
    lemma_torn_record(encode_entries(s), e, k);
    assert(s + Seq::<EntryView>::empty() =~= s);
}

/// A strict prefix of a record does not read as a record.
proof fn lemma_torn_record(pre: Seq<u8>, e: EntryView, k: int)
    requires
        entry_fits(e),
        0 <= k < encode_entry(e).len(),
    ensures
        parse_entry(pre + encode_entry(e).subrange(0, k), pre.len() as int) is None,
{
    let full = pre + encode_entry(e);
    let data = pre + encode_entry(e).subrange(0, k);
    let pos = pre.len() as int;
    lemma_parse_encoded_entry(pre, e, Seq::empty());
    assert(full + Seq::<u8>::empty() =~= full);
    assert(data =~= full.subrange(0, pos + k));
    lemma_parse_prefix(full, pos, pos + k);
}

/// A record read from a prefix of some bytes reads the same from the bytes.
proof fn lemma_parse_prefix(data: Seq<u8>, pos: int, n: int)
    requires
        0 <= pos <= n <= data.len(),
    ensures
        parse_entry(data.subrange(0, n), pos) matches Some((e, q)) ==> parse_entry(data, pos) == Some(
            (e, q),
        ) && q <= n,
{
    let d = data.subrange(0, n);
    if let Some((e, q)) = parse_entry(d, pos) {
        assert(d.subrange(pos, pos + 4) =~= data.subrange(pos, pos + 4));
        let p1 = pos + 4 + vstd::bytes::spec_u32_from_le_bytes(d.subrange(pos, pos + 4)) as int;
        assert(d.subrange(pos + 4, p1) =~= data.subrange(pos + 4, p1));
        assert(d[p1] == data[p1]);
        if d[p1] == 1 {
            assert(d.subrange(p1 + 1, p1 + 5) =~= data.subrange(p1 + 1, p1 + 5));
            let p2 = p1 + 5 + vstd::bytes::spec_u32_from_le_bytes(d.subrange(p1 + 1, p1 + 5)) as int;
            assert(d.subrange(p1 + 5, p2) =~= data.subrange(p1 + 5, p2));
            assert(d.subrange(p2, p2 + 8) =~= data.subrange(p2, p2 + 8));
        } else {
            let p2 = p1 + 1;
            assert(d.subrange(p2, p2 + 8) =~= data.subrange(p2, p2 + 8));
        }
    }
}

} // verus!
