//! SSTable indexes.
use vstd::prelude::*;

pub mod bloom;
pub mod learned;

pub use bloom::BloomFilterIndex;
pub use crate::IndexType;

use crate::index::bloom::encode_bloom;

verus! {

/// Hint returned by an index about where to look for a key.
pub enum LookupHint {
    /// The key is definitely not in the SSTable.
    NotFound,
    /// Search within this byte offset range.
    SearchRange { start: usize, end: usize },
}

/// Common interface of the SSTable indexes.
pub trait Index {
    /// The index can be queried.
    spec fn can_query(&self) -> bool;

    /// The index can take one more key.
    spec fn can_insert(&self) -> bool;

    /// Insert a key with its byte offset in the SSTable.
    fn insert(&mut self, key: &[u8], offset: usize)
        requires
            old(self).can_insert(),
        ensures
            final(self).can_query(),
    ;

    /// Finalize the index after all insertions.
    fn build(&mut self)
        requires
            old(self).can_query(),
        ensures
            final(self).can_query(),
    ;

    /// Where to look for `key`.
    fn lookup_hint(&self, key: &[u8]) -> LookupHint
        requires
            self.can_query(),
    ;

    /// The stored form of the index.
    fn serialize(&self) -> Vec<u8>;

    /// The name of the kind of index.
    fn index_type_name(&self) -> &str;
}

impl Index for BloomFilterIndex {
    open spec fn can_query(&self) -> bool {
        self.shape_ok()
    }

    open spec fn can_insert(&self) -> bool {
        self.shape_ok() && self.spec_num_inserted() < usize::MAX
    }

    /// Set the bits of `key`; the offset plays no part in a Bloom filter.
    fn insert(&mut self, key: &[u8], offset: usize)
        ensures
            final(self).holds(key@),
            forall|k: Seq<u8>| old(self).holds(k) ==> #[trigger] final(self).holds(k),
            final(self).spec_num_bits() == old(self).spec_num_bits(),
            final(self).spec_num_hashes() == old(self).spec_num_hashes(),
            final(self).spec_num_inserted() == old(self).spec_num_inserted() + 1,
    {
        BloomFilterIndex::insert(self, key);
    }

    /// A Bloom filter is complete after each insertion.
    fn build(&mut self)
        ensures
            *final(self) == *old(self),
    {
    }

    /// Not found when the filter rules `key` out; otherwise the whole table.
    fn lookup_hint(&self, key: &[u8]) -> (r: LookupHint)
        ensures
            self.holds(key@) ==> r == (LookupHint::SearchRange { start: 0, end: usize::MAX }),
            !self.holds(key@) ==> r == LookupHint::NotFound,
    {
        proof {
            self.lemma_probe_ok(key@);
        }
        if self.might_contain(key) {
            LookupHint::SearchRange { start: 0, end: usize::MAX }
        } else {
            LookupHint::NotFound
        }
    }

    fn serialize(&self) -> (r: Vec<u8>)
        ensures
            r@ == encode_bloom(
                self.spec_num_bits(),
                self.spec_num_hashes(),
                self.spec_num_inserted(),
                self.words(),
            ),
    {
        BloomFilterIndex::serialize(self)
    }

    fn index_type_name(&self) -> (r: &str)
        ensures
            r@ == seq!['b', 'l', 'o', 'o', 'm'],
    {
        let r = "bloom";
        proof {
            reveal_strlit("bloom");
        }
        r
    }
}

} // verus!
