//! An LSM-tree key-value store: a skip-list memtable, a write-ahead log
//! record format, block-based sorted tables with a Bloom filter index, and
//! the merge rules of scans and compaction.
use vstd::prelude::*;

use vstd::string::StrSliceExecFns;

pub mod keys;
pub mod versions;
pub mod engine;
pub mod index;
pub mod benchmark;

verus! {

/// A key: an arbitrary byte string.
pub type Key = Vec<u8>;

/// A value: an arbitrary byte string.
pub type Value = Vec<u8>;

/// The sequence number of a write; later writes carry larger numbers.
pub type Sequence = u64;

/// Result of a point lookup.
pub enum LookupResult {
    Found(Vec<u8>),
    NotFound,
    Tombstone,
}

/// Which index an SSTable carries.
#[derive(Clone, Copy, PartialEq, Eq, Structural, Debug)]
pub enum IndexType {
    Bloom,
    Learned,
}

/// The name under which the manifest records an index type.
pub open spec fn index_type_name(t: IndexType) -> Seq<char> {
    match t {
        IndexType::Bloom => seq!['B', 'l', 'o', 'o', 'm'],
        IndexType::Learned => seq!['L', 'e', 'a', 'r', 'n', 'e', 'd'],
    }
}

impl IndexType {
    /// The name under which the manifest records the index type.
    pub fn name(&self) -> (r: &'static str)
        ensures
            r@ == index_type_name(*self),
    {
        match self {
            IndexType::Bloom => {
                let r = "Bloom";
                proof {
                    reveal_strlit("Bloom");
                }
                r
            },
            IndexType::Learned => {
                let r = "Learned";
                proof {
                    reveal_strlit("Learned");
                }
                r
            },
        }
    }

    /// The index type a manifest records under `name`: a learned index for
    /// `Learned`, a Bloom filter for any other name.
    pub fn from_name(name: &str) -> (r: IndexType)
        ensures
            r == (if name@ == index_type_name(IndexType::Learned) {
                IndexType::Learned
            } else {
                IndexType::Bloom
            }),
    {
        if name.unicode_len() == 7 && name.get_char(0) == 'L' && name.get_char(1) == 'e'
            && name.get_char(2) == 'a' && name.get_char(3) == 'r' && name.get_char(4) == 'n'
            && name.get_char(5) == 'e' && name.get_char(6) == 'd' {
            assert(name@ =~= index_type_name(IndexType::Learned));
            IndexType::Learned
        } else {
            proof {
                if name@ == index_type_name(IndexType::Learned) {
                    assert(name@[0] == 'L' && name@[1] == 'e' && name@[2] == 'a' && name@[3] == 'r'
                        && name@[4] == 'n' && name@[5] == 'e' && name@[6] == 'd');
                }
            }
            IndexType::Bloom
        }
    }
}

/// A versioned write: a value, or a tombstone when `value` is `None`.
pub struct Entry {
    pub key: Key,
    pub value: Option<Value>,
    pub sequence: Sequence,
}

/// The mathematical content of an [`Entry`].
pub struct EntryView {
    pub key: Seq<u8>,
    pub value: Option<Seq<u8>>,
    pub sequence: u64,
}

pub open spec fn option_bytes_view(v: Option<Vec<u8>>) -> Option<Seq<u8>> {
    match v {
        Some(b) => Some(b@),
        None => None,
    }
}

impl View for Entry {
    type V = EntryView;

    open spec fn view(&self) -> EntryView {
        EntryView { key: self.key@, value: option_bytes_view(self.value), sequence: self.sequence }
    }
}

/// The view of an optional entry.
pub open spec fn opt_entry_view(o: Option<Entry>) -> Option<EntryView> {
    match o {
        Some(e) => Some(e@),
        None => None,
    }
}

/// `r` is the answer to a lookup whose newest version is `v` (`None`: the
/// key has no version): its value, a tombstone, or not found.
pub open spec fn reports(r: LookupResult, v: Option<EntryView>) -> bool {
    match v {
        None => r is NotFound,
        Some(e) => match e.value {
            None => r is Tombstone,
            Some(val) => r matches LookupResult::Found(f) && f@ == val,
        },
    }
}

/// The memory an entry is charged for: its key, its value and eight bytes
/// for the sequence number.
pub open spec fn entry_size(e: EntryView) -> int {
    e.key.len() + match e.value {
        Some(v) => v.len() as int,
        None => 0int,
    } + 8
}

/// A byte vector holding the same bytes as `v`.
pub fn copy_bytes(v: &Vec<u8>) -> (r: Vec<u8>)
    ensures
        r@ == v@,
{
    let mut r: Vec<u8> = Vec::with_capacity(v.len());
    let mut i: usize = 0;
    while i < v.len()
        invariant
            i <= v.len(),
            r@ == v@.subrange(0, i as int),
        decreases v.len() - i,
    {
        r.push(v[i]);
        i = i + 1;
        assert(r@ =~= v@.subrange(0, i as int));
    }
    assert(v@.subrange(0, v.len() as int) =~= v@);
    r
}

impl Entry {
    pub fn new(key: Key, value: Option<Value>, sequence: Sequence) -> (r: Entry)
        ensures
            r.key == key,
            r.value == value,
            r.sequence == sequence,
    {
        Entry { key, value, sequence }
    }

    pub fn is_tombstone(&self) -> (r: bool)
        ensures
            r == (self.value is None),
    {
        self.value.is_none()
    }

    pub fn size_bytes(&self) -> (r: usize)
        requires
            entry_size(self@) <= usize::MAX,
        ensures
            r == entry_size(self@),
    {
        let vlen: usize = match &self.value {
            Some(v) => v.len(),
            None => 0,
        };
        self.key.len() + vlen + 8
    }

    /// An entry with the same key, value and sequence number.
    pub fn duplicate(&self) -> (r: Entry)
        ensures
            r@ == self@,
    {
        let value = match &self.value {
            Some(v) => Some(copy_bytes(v)),
            None => None,
        };
        Entry { key: copy_bytes(&self.key), value, sequence: self.sequence }
    }
}

} // verus!
