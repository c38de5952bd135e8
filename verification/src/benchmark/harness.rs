//! YCSB-style workloads: their operation mix, key distribution and keys.
use vstd::prelude::*;

use vstd::string::StrSliceExecFns;

use rand::Rng;

use crate::engine::sstable::decimal_value;

verus! {

/// Key distribution types.
#[derive(Debug, Clone, Copy, PartialEq, Eq, Structural)]
pub enum DistributionType {
    Uniform,
    Zipfian,
    Sequential,
    Latest,
}

/// The operation mix of a workload, in percent of all operations, and the
/// distribution of the keys it touches.
#[derive(Debug, Clone, Copy, PartialEq, Eq, Structural)]
pub struct WorkloadConfig {
    pub read_percent: u32,
    pub update_percent: u32,
    pub insert_percent: u32,
    pub delete_percent: u32,
    pub distribution: DistributionType,
}

/// The workload named `name`: YCSB workloads A (half reads, half updates),
/// B (95% reads), C (reads only) and D (95% reads, 5% inserts of the latest
/// keys); any other name is half reads and half updates over uniform keys.
pub open spec fn workload_of(name: Seq<char>) -> WorkloadConfig {
    if name == seq!['A'] {
        WorkloadConfig {
            read_percent: 50,
            update_percent: 50,
            insert_percent: 0,
            delete_percent: 0,
            distribution: DistributionType::Zipfian,
        }
    } else if name == seq!['B'] {
        WorkloadConfig {
            read_percent: 95,
            update_percent: 5,
            insert_percent: 0,
            delete_percent: 0,
            distribution: DistributionType::Zipfian,
        }
    } else if name == seq!['C'] {
        WorkloadConfig {
            read_percent: 100,
            update_percent: 0,
            insert_percent: 0,
            delete_percent: 0,
            distribution: DistributionType::Zipfian,
        }
    } else if name == seq!['D'] {
        WorkloadConfig {
            read_percent: 95,
            update_percent: 0,
            insert_percent: 5,
            delete_percent: 0,
            distribution: DistributionType::Latest,
        }
    } else {
        WorkloadConfig {
            read_percent: 50,
            update_percent: 50,
            insert_percent: 0,
            delete_percent: 0,
            distribution: DistributionType::Uniform,
        }
    }
}

/// The configuration of the workload named `workload`.
/// The workloads are the YCSB mixes: every mix adds up to 100% and none
/// deletes; workload A is half reads and half updates, B 95% reads and 5%
/// updates, C reads only, all three over Zipfian keys; D is 95% reads and
/// 5% inserts, asking most for the latest keys; any other name is half
/// reads and half updates over uniformly drawn keys.
pub proof fn lemma_workload_mixes(name: Seq<char>)
    ensures
        ({
            let w = workload_of(name);
            &&& w.read_percent + w.update_percent + w.insert_percent + w.delete_percent == 100
            &&& w.delete_percent == 0
            &&& name == seq!['A'] ==> w.read_percent == 50 && w.update_percent == 50 && w.distribution
                == DistributionType::Zipfian
            &&& name == seq!['B'] ==> w.read_percent == 95 && w.update_percent == 5 && w.distribution
                == DistributionType::Zipfian
            &&& name == seq!['C'] ==> w.read_percent == 100 && w.distribution == DistributionType::Zipfian
            &&& name == seq!['D'] ==> w.read_percent == 95 && w.insert_percent == 5 && w.distribution
                == DistributionType::Latest
            &&& (name != seq!['A'] && name != seq!['B'] && name != seq!['C'] && name != seq!['D'])
                ==> w.read_percent == 50 && w.update_percent == 50 && w.distribution
                == DistributionType::Uniform
        }),
{
    let names = seq![seq!['A'], seq!['B'], seq!['C'], seq!['D']];
    assert forall|i: int, j: int| 0 <= i < j < 4 implies names[i] != names[j] by {
        assert(names[i][0] != names[j][0]);
    }
    assert(names[0] == seq!['A'] && names[1] == seq!['B'] && names[2] == seq!['C'] && names[3] == seq!['D']);
}

pub fn get_workload_config(workload: &str) -> (r: WorkloadConfig)
    ensures
        r == workload_of(workload@),
        r.read_percent + r.update_percent + r.insert_percent + r.delete_percent == 100,
        r.delete_percent == 0,
        workload@ == seq!['A'] ==> r.read_percent == 50 && r.update_percent == 50 && r.distribution
            == DistributionType::Zipfian,
        workload@ == seq!['B'] ==> r.read_percent == 95 && r.update_percent == 5 && r.distribution
            == DistributionType::Zipfian,
        workload@ == seq!['C'] ==> r.read_percent == 100 && r.distribution == DistributionType::Zipfian,
        workload@ == seq!['D'] ==> r.read_percent == 95 && r.insert_percent == 5 && r.distribution
            == DistributionType::Latest,
        workload@ != seq!['A'] && workload@ != seq!['B'] && workload@ != seq!['C'] && workload@ != seq![
            'D',
        ] ==> r.read_percent == 50 && r.update_percent == 50 && r.distribution == DistributionType::Uniform,
{
    proof {
        lemma_workload_mixes(workload@);
    }
    let c = if workload.unicode_len() == 1 {
        workload.get_char(0)
    } else {
        ' '
    };
    proof {
        if workload@.len() == 1 {
            assert(workload@ =~= seq![c]);
        }
    }
    if c == 'A' {
        WorkloadConfig {
            read_percent: 50,
            update_percent: 50,
            insert_percent: 0,
            delete_percent: 0,
            distribution: DistributionType::Zipfian,
        }
    } else if c == 'B' {
        WorkloadConfig {
            read_percent: 95,
            update_percent: 5,
            insert_percent: 0,
            delete_percent: 0,
            distribution: DistributionType::Zipfian,
        }
    } else if c == 'C' {
        WorkloadConfig {
            read_percent: 100,
            update_percent: 0,
            insert_percent: 0,
            delete_percent: 0,
            distribution: DistributionType::Zipfian,
        }
    } else if c == 'D' {
        WorkloadConfig {
            read_percent: 95,
            update_percent: 0,
            insert_percent: 5,
            delete_percent: 0,
            distribution: DistributionType::Latest,
        }
    } else {
        WorkloadConfig {
            read_percent: 50,
            update_percent: 50,
            insert_percent: 0,
            delete_percent: 0,
            distribution: DistributionType::Uniform,
        }
    }
}

/// The ASCII decimal digits of `n`, without leading zeros.
pub open spec fn decimal_digits(n: nat) -> Seq<u8>
    decreases n,
{
    if n < 10 {
        seq![(48 + n) as u8]
    } else {
        decimal_digits(n / 10).push((48 + n % 10) as u8)
    }
}

/// `d` with `0` digits in front, to at least `width` digits.
pub open spec fn zero_padded(d: Seq<u8>, width: nat) -> Seq<u8> {
    if d.len() >= width {
        d
    } else {
        Seq::new((width - d.len()) as nat, |i: int| 48u8) + d
    }
}

/// The key of record `idx`: `user` followed by `idx` in at least ten
/// decimal digits.
pub open spec fn key_for(idx: nat) -> Seq<u8> {
    seq![117u8, 115u8, 101u8, 114u8] + zero_padded(decimal_digits(idx), 10)
}

/// The number of decimal digits of `n`.
fn digit_count(n: usize) -> (r: usize)
    ensures
        r == decimal_digits(n as nat).len(),
    decreases n,
{
    if n < 10 {
        1
    } else {
        let r = digit_count(n / 10);
        proof {
            assert(decimal_digits(n as nat).len() == decimal_digits((n / 10) as nat).len() + 1);
        }
        assert(r < 30) by {
            lemma_digits_len(n as nat);
        }
        r + 1
    }
}

proof fn lemma_digits_len(n: nat)
    ensures
        decimal_digits(n).len() <= n + 1,
        decimal_digits(n).len() <= 21 || n > u64::MAX,
    decreases n,
{
    if n >= 10 {
        lemma_digits_len(n / 10);
        if n <= u64::MAX {
            lemma_digits_small(n);
        }
    } else {
    }
}

proof fn lemma_digits_small(n: nat)
    requires
        n <= u64::MAX,
    ensures
        decimal_digits(n).len() <= 20,
{
    reveal_with_fuel(pow10, 21);
    assert(pow10(20) == 100000000000000000000nat);
    lemma_digits_bound(n, 20);
}

proof fn lemma_digits_bound(n: nat, k: nat)
    requires
        n < pow10(k),
        k >= 1,
    ensures
        decimal_digits(n).len() <= k,
    decreases n,
{
    if n >= 10 {
        assert(k >= 2) by {
            if k == 1 {
                reveal_with_fuel(pow10, 2);
            }
        }
        assert(n / 10 < pow10((k - 1) as nat)) by {
            assert(pow10(k) == pow10((k - 1) as nat) * 10);
        }
        lemma_digits_bound(n / 10, (k - 1) as nat);
    }
}

/// The key of record `idx` is `user` followed by decimal digits that read
/// back as `idx`, ten of them for every index below 10^10: keys of
/// different records differ, and each key names its record.
pub proof fn lemma_key_for(idx: nat)
    ensures
        key_for(idx).len() >= 14,
        key_for(idx).subrange(0, 4) == seq![117u8, 115u8, 101u8, 114u8],
        forall|i: int| 4 <= i < key_for(idx).len() ==> 48 <= #[trigger] key_for(idx)[i] <= 57,
        decimal_value(key_for(idx).subrange(4, key_for(idx).len() as int)) == idx,
        idx < pow10(10) ==> key_for(idx).len() == 14,
{
    let d = decimal_digits(idx);
    lemma_digits_value(idx);
    let p = zero_padded(d, 10);
    if d.len() < 10 {
        let z = Seq::new((10 - d.len()) as nat, |i: int| 48u8);
        lemma_zeros_prefix_value(z, d);
    }
    let k = key_for(idx);
    assert(k.subrange(4, k.len() as int) =~= p);
    assert(k.subrange(0, 4) =~= seq![117u8, 115u8, 101u8, 114u8]);
    assert forall|i: int| 4 <= i < k.len() implies 48 <= #[trigger] k[i] <= 57 by {
        assert(k[i] == p[i - 4]);
    }
    if idx < pow10(10) {
        lemma_digits_bound(idx, 10);
    }
}

/// The digits of `n` are decimal digits and read back as `n`.
proof fn lemma_digits_value(n: nat)
    ensures
        decimal_value(decimal_digits(n)) == n,
        forall|i: int| 0 <= i < decimal_digits(n).len() ==> 48 <= #[trigger] decimal_digits(n)[i] <= 57,
        decimal_digits(n).len() >= 1,
    decreases n,
{
    let d = decimal_digits(n);
    if n < 10 {
        assert(d.drop_last() =~= Seq::<u8>::empty());
        assert(d.last() == (48 + n) as u8);
        assert(decimal_value(d) == decimal_value(d.drop_last()) * 10 + (d.last() - 48) as nat);
    } else {
        lemma_digits_value(n / 10);
        let q = decimal_digits(n / 10);
        assert(d.drop_last() =~= q);
        assert(d.last() == (48 + n % 10) as u8);
        assert((d.last() - 48) as nat == n % 10);
        assert(decimal_value(d) == decimal_value(q) * 10 + (d.last() - 48) as nat);
        assert(n == (n / 10) * 10 + n % 10) by (nonlinear_arith);
        assert forall|i: int| 0 <= i < d.len() implies 48 <= #[trigger] d[i] <= 57 by {
            if i < q.len() {
                assert(d[i] == q[i]);
            }
        }
    }
}

/// Leading `0` digits do not change the value of digits.
proof fn lemma_zeros_prefix_value(z: Seq<u8>, d: Seq<u8>)
    requires
        forall|i: int| 0 <= i < z.len() ==> #[trigger] z[i] == 48u8,
    ensures
        decimal_value(z + d) == decimal_value(d),
    decreases d.len(),
{
    if d.len() == 0 {
        assert(z + d =~= z);
        lemma_zeros_value(z);
    } else {
        assert((z + d).drop_last() =~= z + d.drop_last());
        lemma_zeros_prefix_value(z, d.drop_last());
    }
}

/// `0` digits have the value 0.
proof fn lemma_zeros_value(z: Seq<u8>)
    requires
        forall|i: int| 0 <= i < z.len() ==> #[trigger] z[i] == 48u8,
    ensures
        decimal_value(z) == 0,
    decreases z.len(),
{
    if z.len() > 0 {
        lemma_zeros_value(z.drop_last());
    }
}

/// 10 to the power `k`.
pub open spec fn pow10(k: nat) -> nat
    decreases k,
{
    if k == 0 {
        1
    } else {
        pow10((k - 1) as nat) * 10
    }
}

/// Append the decimal digits of `n` to `buf`.
fn push_decimal(buf: &mut Vec<u8>, n: usize)
    ensures
        final(buf)@ == old(buf)@ + decimal_digits(n as nat),
    decreases n,
{
    if n >= 10 {
        push_decimal(buf, n / 10);
    }
    let d = (n % 10) as u8;
    buf.push(48 + d);
    proof {
        if n >= 10 {
            assert(final(buf)@ =~= old(buf)@ + decimal_digits(n as nat)) by {
                assert(decimal_digits(n as nat) == decimal_digits((n / 10) as nat).push(
                    (48 + n % 10) as u8,
                ));
            }
        }
    }
}

/// The key of record `idx`.
pub fn generate_key(idx: usize) -> (r: Vec<u8>)
    ensures
        r@ == key_for(idx as nat),
{
    let mut key: Vec<u8> = Vec::new();
    key.push(117);
    key.push(115);
    key.push(101);
    key.push(114);
    let ghost head = key@;
    let len = digit_count(idx);
    let mut pad: usize = 0;
    let width: usize = if len < 10 {
        10 - len
    } else {
        0
    };
    while pad < width
        invariant
            pad <= width,
            key@ == head + Seq::new(pad as nat, |i: int| 48u8),
        decreases width - pad,
    {
        key.push(48);
        pad = pad + 1;
        assert(key@ =~= head + Seq::new(pad as nat, |i: int| 48u8));
    }
    let ghost padded = key@;
    push_decimal(&mut key, idx);
    proof {
        let d = decimal_digits(idx as nat);
        if d.len() >= 10 {
            assert(Seq::new(0, |i: int| 48u8) + d =~= d);
            assert(key@ =~= head + d);
        } else {
            assert(key@ =~= head + (Seq::new((10 - d.len()) as nat, |i: int| 48u8) + d));
        }
        assert(head =~= seq![117u8, 115u8, 101u8, 114u8]);
    }
    key
}

/// rand's `Rng::gen_range` on the thread-local generator: a number drawn
/// from `[lo, hi)` (the range must not be empty). Which one is not
/// promised.
#[verifier::external_body]
fn random_in(lo: usize, hi: usize) -> (r: usize)
    requires
        lo < hi,
    ensures
        lo <= r < hi,
{
    rand::thread_rng().gen_range(lo..hi)
}

/// rand's `Rng::fill` on the thread-local generator: overwrites every byte
/// of `buf` with a random one; the length stays. The bytes are not
/// promised.
#[verifier::external_body]
fn random_fill(buf: &mut Vec<u8>)
    ensures
        final(buf)@.len() == old(buf)@.len(),
{
    rand::thread_rng().fill(buf.as_mut_slice())
}

/// A value for a benchmark write: 64 to 255 random bytes.
pub fn generate_value() -> (r: Vec<u8>)
    ensures
        64 <= r@.len() < 256,
{
    let len = random_in(64, 256);
    let mut val: Vec<u8> = Vec::with_capacity(len);
    let mut i: usize = 0;
    while i < len
        invariant
            i <= len,
            val@.len() == i,
        decreases len - i,
    {
        val.push(0);
        i = i + 1;
    }
    random_fill(&mut val);
    val
}

/// The index of the key that an operation touches, from what the workload's
/// distribution drew: a uniform or sequential draw is the index itself, a
/// zipfian one is capped at the last key, and a draw `d` under `Latest`
/// picks the key `d` places before the last one (the first key where there
/// is no such key).
pub fn key_index(distribution: DistributionType, num_keys: usize, draw: usize) -> (r: usize)
    requires
        num_keys > 0,
    ensures
        r == match distribution {
            DistributionType::Zipfian => if draw < num_keys {
                draw
            } else {
                (num_keys - 1) as usize
            },
            DistributionType::Latest => if draw < num_keys {
                (num_keys - 1 - draw) as usize
            } else {
                0
            },
            _ => draw,
        },
{
    match distribution {
        DistributionType::Zipfian => if draw < num_keys {
            draw
        } else {
            num_keys - 1
        },
        DistributionType::Latest => if draw < num_keys {
            num_keys - 1 - draw
        } else {
            0
        },
        _ => draw,
    }
}

/// The engine call that one operation of a workload makes, with the key it
/// touches; the value that an update or insert writes is drawn by the caller.
#[derive(Debug)]
pub enum WorkloadCall {
    Get(Vec<u8>),
    Put(Vec<u8>),
    Delete(Vec<u8>),
}

/// How far a workload has run: the operations of each kind issued so far,
/// and the index of the next key that an insert creates.
#[derive(Debug, Clone, Copy, PartialEq, Eq, Structural)]
pub struct WorkloadProgress {
    pub read_ops: u64,
    pub write_ops: u64,
    pub delete_ops: u64,
    pub next_insert_key: usize,
}

impl WorkloadProgress {
    /// A workload over `num_keys` loaded keys, before its first operation.
    pub fn new(num_keys: usize) -> (r: Self)
        ensures
            r == (WorkloadProgress {
                read_ops: 0,
                write_ops: 0,
                delete_ops: 0,
                next_insert_key: num_keys,
            }),
    {
        WorkloadProgress { read_ops: 0, write_ops: 0, delete_ops: 0, next_insert_key: num_keys }
    }

    /// Operation `op` of the mix (0 read, 1 update, 2 insert, 3 delete) on
    /// the key of index `key_idx`: a read gets that key, an update writes it,
    /// a delete removes it, and an insert writes the next new key instead.
    /// Each counts as a read, a write, a write or a delete.
    pub fn step(&mut self, op: usize, key_idx: usize) -> (call: WorkloadCall)
        requires
            op < 4,
            old(self).read_ops < u64::MAX,
            old(self).write_ops < u64::MAX,
            old(self).delete_ops < u64::MAX,
            old(self).next_insert_key < usize::MAX,
        ensures
            op == 0 ==> {
                &&& call matches WorkloadCall::Get(k) && k@ == key_for(key_idx as nat)
                &&& *final(self) == (WorkloadProgress { read_ops: (old(self).read_ops + 1) as u64, ..*old(self) })
            },
            op == 1 ==> {
                &&& call matches WorkloadCall::Put(k) && k@ == key_for(key_idx as nat)
                &&& *final(self) == (WorkloadProgress { write_ops: (old(self).write_ops + 1) as u64, ..*old(self) })
            },
            op == 2 ==> {
                &&& call matches WorkloadCall::Put(k) && k@ == key_for(old(self).next_insert_key as nat)
                &&& *final(self) == (WorkloadProgress {
                    write_ops: (old(self).write_ops + 1) as u64,
                    next_insert_key: (old(self).next_insert_key + 1) as usize,
                    ..*old(self)
                })
            },
            op == 3 ==> {
                &&& call matches WorkloadCall::Delete(k) && k@ == key_for(key_idx as nat)
                &&& *final(self) == (WorkloadProgress { delete_ops: (old(self).delete_ops + 1) as u64, ..*old(self) })
            },
    {
        if op == 0 {
            self.read_ops = self.read_ops + 1;
            WorkloadCall::Get(generate_key(key_idx))
        } else if op == 1 {
            self.write_ops = self.write_ops + 1;
            WorkloadCall::Put(generate_key(key_idx))
        } else if op == 2 {
            let key = generate_key(self.next_insert_key);
            self.next_insert_key = self.next_insert_key + 1;
            self.write_ops = self.write_ops + 1;
            WorkloadCall::Put(key)
        } else {
            self.delete_ops = self.delete_ops + 1;
            WorkloadCall::Delete(generate_key(key_idx))
        }
    }
}

} // verus!
