//! Kafka's default partitioner (murmur2) and partition simulation.

use vstd::prelude::*;
use vstd::utf8::encode_utf8;
use vstd::wrapping::u32_specs::wrapping_mul;

use crate::analyzer::{KeyCount, key_count_values, keys_total};
use crate::attributes::{AttrSeq, Attributes};
use crate::pairs::{lemma_seq_sum_prefix, lemma_seq_sum_update, seq_sum};
use crate::spread::{Spread, scaled_variance, spread_of, spread_value};

verus! {

/// Seed of Kafka's murmur2 variant.
pub const MURMUR_SEED: u32 = 0x9747_B28C;

/// Multiplier of Kafka's murmur2 variant.
pub const MURMUR_M: u32 = 0x5BD1_E995;

/// The little-endian 32-bit word made of `data[i..i + 4]`.
pub open spec fn le_word(data: Seq<u8>, i: int) -> u32 {
    (data[i] as u32) | ((data[i + 1] as u32) << 8u32) | ((data[i + 2] as u32) << 16u32) | ((
    data[i + 3] as u32) << 24u32)
}

/// Scrambling applied to every 4-byte block before it is folded into the hash.
pub open spec fn murmur_scramble(k: u32) -> u32 {
    let k1 = wrapping_mul(k, MURMUR_M);
    let k2 = k1 ^ (k1 >> 24u32);
    wrapping_mul(k2, MURMUR_M)
}

/// The hash state after folding in the first `n` whole blocks of `data`.
pub open spec fn murmur_blocks(h0: u32, data: Seq<u8>, n: nat) -> u32
    decreases n,
{
    if n == 0 {
        h0
    } else {
        wrapping_mul(murmur_blocks(h0, data, (n - 1) as nat), MURMUR_M) ^ murmur_scramble(
            le_word(data, 4 * (n - 1)),
        )
    }
}

/// Folds in the 0 to 3 bytes that follow the last whole block.
pub open spec fn murmur_tail(h: u32, data: Seq<u8>) -> u32 {
    let rem = data.len() % 4;
    let base = data.len() - rem;
    let h1 = if rem >= 3 {
        h ^ ((data[base + 2] as u32) << 16u32)
    } else {
        h
    };
    let h2 = if rem >= 2 {
        h1 ^ ((data[base + 1] as u32) << 8u32)
    } else {
        h1
    };
    if rem >= 1 {
        wrapping_mul(h2 ^ (data[base] as u32), MURMUR_M)
    } else {
        h2
    }
}

/// Final avalanche of the hash state.
pub open spec fn murmur_finish(h: u32) -> u32 {
    let a = h ^ (h >> 13u32);
    let b = wrapping_mul(a, MURMUR_M);
    b ^ (b >> 15u32)
}

/// Kafka's murmur2 hash of `data`.
pub open spec fn spec_murmur2(data: Seq<u8>) -> u32 {
    murmur_finish(
        murmur_tail(
            murmur_blocks(MURMUR_SEED ^ (data.len() as u32), data, data.len() / 4),
            data,
        ),
    )
}

/// The partition that Kafka's default partitioner gives `key` among `n` partitions.
pub open spec fn spec_kafka_partition(key: Seq<u8>, n: nat) -> nat {
    ((spec_murmur2(key) & 0x7FFF_FFFFu32) as nat) % n
}

/// Kafka's murmur2 hash, as its Java client computes it.
pub fn murmur2(data: &[u8]) -> (h: u32)
    ensures
        h == spec_murmur2(data@),
{
    let len = data.len();
    let nblocks = len / 4;
    let mut h: u32 = MURMUR_SEED ^ (len as u32);
    let mut i: usize = 0;
    while i < nblocks
        invariant
            len == data@.len(),
            nblocks == len / 4,
            i <= nblocks,
            h == murmur_blocks(MURMUR_SEED ^ (len as u32), data@, i as nat),
        decreases nblocks - i,
    {
        let j = 4 * i;
        let mut k: u32 = (data[j] as u32) | ((data[j + 1] as u32) << 8u32) | ((data[j + 2] as u32)
            << 16u32) | ((data[j + 3] as u32) << 24u32);
        k = k.wrapping_mul(MURMUR_M);
        k = k ^ (k >> 24u32);
        k = k.wrapping_mul(MURMUR_M);
        h = h.wrapping_mul(MURMUR_M);
        h = h ^ k;
        i = i + 1;
    }
    let rem = len % 4;
    let base = len - rem;
    if rem >= 3 {
        h = h ^ ((data[base + 2] as u32) << 16u32);
    }
    if rem >= 2 {
        h = h ^ ((data[base + 1] as u32) << 8u32);
    }
    if rem >= 1 {
        h = h ^ (data[base] as u32);
        h = h.wrapping_mul(MURMUR_M);
    }
    h = h ^ (h >> 13u32);
    h = h.wrapping_mul(MURMUR_M);
    h = h ^ (h >> 15u32);
    h
}

/// The partition among `n_partitions` that Kafka's default partitioner
/// gives a message with this key: the murmur2 hash with its sign bit cleared,
/// modulo the partition count.
pub fn kafka_partition(key: &[u8], n_partitions: usize) -> (p: usize)
    requires
        n_partitions > 0,
    ensures
        p as nat == spec_kafka_partition(key@, n_partitions as nat),
        p < n_partitions,
        p as nat == (spec_murmur2(key@) as nat % 0x8000_0000) % (n_partitions as nat),
{
    proof {
        lemma_partition_clears_sign_bit(key@, n_partitions as nat);
    }
    ((murmur2(key) & 0x7FFF_FFFFu32) as usize) % n_partitions
}

/// Kafka's `toPositive(murmur2(key)) % n`: the partition is the hash with
/// its sign bit (bit 31) cleared, modulo the partition count; flipping bit
/// 31 of the hash never changes it.
pub proof fn lemma_partition_clears_sign_bit(key: Seq<u8>, n: nat)
    requires
        n > 0,
    ensures
        spec_kafka_partition(key, n) == (spec_murmur2(key) as nat % 0x8000_0000) % n,
        spec_kafka_partition(key, n) == ((spec_murmur2(key) ^ 0x8000_0000u32) as nat % 0x8000_0000) % n,
        spec_kafka_partition(key, n) < n,
{
    let h = spec_murmur2(key);
    assert(h & 0x7FFF_FFFFu32 == h % 0x8000_0000u32) by (bit_vector);
    assert((h ^ 0x8000_0000u32) % 0x8000_0000u32 == h % 0x8000_0000u32) by (bit_vector);
}

/// The number of messages that the keys of `ks` send to partition `p` of `n`.
pub open spec fn partition_load(ks: Seq<KeyCount>, n: nat, p: nat) -> nat
    decreases ks.len(),
{
    if ks.len() == 0 {
        0
    } else {
        partition_load(ks.drop_last(), n, p) + if spec_kafka_partition(ks.last().key@, n) == p {
            ks.last().count as nat
        } else {
            0
        }
    }
}

/// The number of messages per partition, for `n` partitions.
pub open spec fn partition_loads(ks: Seq<KeyCount>, n: nat) -> Seq<nat> {
    Seq::new(n, |p: int| partition_load(ks, n, p as nat))
}

/// The largest element of a non-empty sequence.
pub open spec fn is_max_of(m: nat, c: Seq<nat>) -> bool {
    &&& forall|i: int| 0 <= i < c.len() ==> c[i] <= m
    &&& exists|i: int| 0 <= i < c.len() && c[i] == m
}

/// The smallest element of a non-empty sequence.
pub open spec fn is_min_of(m: nat, c: Seq<nat>) -> bool {
    &&& forall|i: int| 0 <= i < c.len() ==> m <= c[i]
    &&& exists|i: int| 0 <= i < c.len() && c[i] == m
}

/// No partition receives more messages than there are.
pub proof fn lemma_partition_load_bound(ks: Seq<KeyCount>, n: nat, p: nat)
    ensures
        partition_load(ks, n, p) <= keys_total(ks),
    decreases ks.len(),
{
    if ks.len() > 0 {
        lemma_partition_load_bound(ks.drop_last(), n, p);
        assert(key_count_values(ks).drop_last() =~= key_count_values(ks.drop_last()));
    }
}

/// Every message lands in exactly one partition: the loads add up to the
/// total count.
pub proof fn lemma_partition_loads_total(ks: Seq<KeyCount>, n: nat)
    requires
        n > 0,
    ensures
        seq_sum(partition_loads(ks, n)) == keys_total(ks),
    decreases ks.len(),
{
    if ks.len() == 0 {
        assert forall|i: int| 0 <= i < n implies #[trigger] partition_loads(ks, n)[i] == 0 by {}
        lemma_seq_sum_zero(partition_loads(ks, n));
        assert(key_count_values(ks) =~= Seq::<nat>::empty());
    } else {
        let d = ks.drop_last();
        lemma_partition_loads_total(d, n);
        let q = spec_kafka_partition(ks.last().key@, n);
        let c = ks.last().count as nat;
        assert(q < n);
        assert(partition_loads(ks, n) =~= partition_loads(d, n).update(
            q as int,
            partition_loads(d, n)[q as int] + c,
        ));
        lemma_seq_sum_update(partition_loads(d, n), q as int, partition_loads(d, n)[q as int] + c);
        assert(key_count_values(ks).drop_last() =~= key_count_values(d));
    }
}

/// Adding the `t`-th key to the simulation adds its count to its partition.
pub proof fn lemma_load_step(ks: Seq<KeyCount>, t: int, n: nat)
    requires
        0 <= t < ks.len(),
        n > 0,
    ensures
        ks[t].count == 0 ==> partition_loads(ks.take(t + 1), n) == partition_loads(ks.take(t), n),
        ks[t].count != 0 ==> partition_loads(ks.take(t + 1), n) == partition_loads(ks.take(t), n).update(
            spec_kafka_partition(ks[t].key@, n) as int,
            partition_loads(ks.take(t), n)[spec_kafka_partition(ks[t].key@, n) as int] + ks[t].count as nat,
        ),
{
    let after = ks.take(t + 1);
    assert(after.drop_last() =~= ks.take(t));
    assert(after.last() == ks[t]);
    if ks[t].count == 0 {
        assert(partition_loads(after, n) =~= partition_loads(ks.take(t), n));
    } else {
        assert(partition_loads(after, n) =~= partition_loads(ks.take(t), n).update(
            spec_kafka_partition(ks[t].key@, n) as int,
            partition_loads(ks.take(t), n)[spec_kafka_partition(ks[t].key@, n) as int] + ks[t].count as nat,
        ));
    }
}

/// A sequence of zeros sums to zero.
pub proof fn lemma_seq_sum_zero(c: Seq<nat>)
    requires
        forall|i: int| 0 <= i < c.len() ==> c[i] == 0,
    ensures
        seq_sum(c) == 0,
    decreases c.len(),
{
    if c.len() > 0 {
        lemma_seq_sum_zero(c.drop_last());
    }
}

/// The busiest partition carries at least as many messages as the idlest.
pub proof fn lemma_min_le_max(lo: nat, hi: nat, c: Seq<nat>)
    requires
        is_min_of(lo, c),
        is_max_of(hi, c),
    ensures
        lo <= hi,
{
    let i = choose|i: int| 0 <= i < c.len() && c[i] == lo;
    assert(c[i] <= hi);
}

/// How the messages of one schema spread over the partitions.
pub struct Distribution {
    /// Messages per partition.
    pub partition_counts: Vec<usize>,
    /// The most messages any partition receives.
    pub max_count: usize,
    /// The fewest messages any partition receives.
    pub min_count: usize,
    /// `n²` times the variance of the partition counts, exactly.
    pub spread: Spread,
}

/// The counts of a list of `usize`, as naturals.
pub open spec fn nat_counts(v: Seq<usize>) -> Seq<nat> {
    v.map_values(|x: usize| x as nat)
}

/// Simulates Kafka's default partitioner on counted keys: every key sends its
/// count of messages to its partition among `n_partitions`.
pub fn simulate_counted_distribution(key_counts: &Vec<KeyCount>, n_partitions: usize) -> (r:
    Distribution)
    requires
        n_partitions > 0,
        keys_total(key_counts@) <= usize::MAX,
    ensures
        nat_counts(r.partition_counts@) == partition_loads(key_counts@, n_partitions as nat),
        is_max_of(r.max_count as nat, nat_counts(r.partition_counts@)),
        is_min_of(r.min_count as nat, nat_counts(r.partition_counts@)),
        spread_value(r.spread, n_partitions as nat) == scaled_variance(
            partition_loads(key_counts@, n_partitions as nat),
        ),
        r.spread.deficit < n_partitions,
        r.partition_counts@.len() == n_partitions,
        r.min_count <= r.max_count,
        seq_sum(nat_counts(r.partition_counts@)) == keys_total(key_counts@),
{
    let ghost ks = key_counts@;
    let ghost n = n_partitions as nat;
    let mut counts: Vec<usize> = Vec::new();
    let mut p: usize = 0;
    while p < n_partitions
        invariant
            p <= n_partitions,
            counts@.len() == p,
            forall|i: int| 0 <= i < p ==> counts@[i] == 0,
        decreases n_partitions - p,
    {
        counts.push(0);
        p = p + 1;
    }
    proof {
        assert(ks.take(0) =~= Seq::<KeyCount>::empty());
        assert(nat_counts(counts@) =~= partition_loads(ks.take(0), n));
    }
    let mut t: usize = 0;
    while t < key_counts.len()
        invariant
            ks == key_counts@,
            n == n_partitions,
            n_partitions > 0,
            keys_total(ks) <= usize::MAX,
            t <= ks.len(),
            counts@.len() == n,
            nat_counts(counts@) == partition_loads(ks.take(t as int), n),
        decreases ks.len() - t,
    {
        proof {
            lemma_load_step(ks, t as int, n);
            lemma_seq_sum_prefix(key_count_values(ks), t + 1);
            assert(key_count_values(ks.take(t + 1)) =~= key_count_values(ks).take(t + 1));
        }
        let count = key_counts[t].count;
        if count != 0 {
            let q = kafka_partition(key_counts[t].key.as_slice(), n_partitions);
            proof {
                lemma_partition_load_bound(ks.take(t + 1), n, q as nat);
                assert(nat_counts(counts@)[q as int] == counts@[q as int] as nat);
                assert(key_counts[t as int].key@ == ks[t as int].key@);
                assert(partition_loads(ks.take(t + 1), n)[q as int] == partition_load(
                    ks.take(t + 1),
                    n,
                    q as nat,
                ));
            }
            let updated = counts[q] + count;
            let ghost old_counts = counts@;
            counts.set(q, updated);
            proof {
                assert(nat_counts(counts@) =~= nat_counts(old_counts).update(q as int, updated as nat));
            }
        }
        t = t + 1;
    }
    proof {
        assert(ks.take(ks.len() as int) =~= ks);
        lemma_partition_loads_total(ks, n);
    }
    let mut max_count: usize = counts[0];
    let mut min_count: usize = counts[0];
    let mut i: usize = 1;
    while i < n_partitions
        invariant
            1 <= i <= n_partitions,
            counts@.len() == n_partitions,
            forall|j: int| 0 <= j < i ==> counts@[j] <= max_count,
            exists|j: int| 0 <= j < i && counts@[j] == max_count,
            forall|j: int| 0 <= j < i ==> min_count <= counts@[j],
            exists|j: int| 0 <= j < i && counts@[j] == min_count,
        decreases n_partitions - i,
    {
        if counts[i] > max_count {
            max_count = counts[i];
        }
        if counts[i] < min_count {
            min_count = counts[i];
        }
        i = i + 1;
    }
    proof {
        assert forall|j: int| 0 <= j < n_partitions implies #[trigger] nat_counts(counts@)[j]
            == counts@[j] as nat by {}
        let jmax = choose|j: int| 0 <= j < n_partitions && counts@[j] == max_count;
        assert(nat_counts(counts@)[jmax] == max_count);
        let jmin = choose|j: int| 0 <= j < n_partitions && counts@[j] == min_count;
        assert(nat_counts(counts@)[jmin] == min_count);
    }
    proof {
        lemma_min_le_max(min_count as nat, max_count as nat, nat_counts(counts@));
    }
    let spread = spread_of(&counts);
    Distribution { partition_counts: counts, max_count, min_count, spread }
}

/// A hexadecimal digit, lower case.
pub open spec fn hex_digit(d: u32) -> char {
    if d < 10 {
        (48 + d) as char
    } else {
        (87 + d) as char
    }
}

/// One character inside a JSON string as `serde_json` writes it: quote and
/// backslash escaped, the usual short escapes for backspace, tab, newline,
/// form feed and carriage return, `\u00XX` for the other control
/// characters, anything else as it is.
pub open spec fn json_char(c: char) -> Seq<char> {
    let u = c as u32;
    if c == '"' {
        seq!['\\', '"']
    } else if c == '\\' {
        seq!['\\', '\\']
    } else if u == 8 {
        seq!['\\', 'b']
    } else if u == 9 {
        seq!['\\', 't']
    } else if u == 10 {
        seq!['\\', 'n']
    } else if u == 12 {
        seq!['\\', 'f']
    } else if u == 13 {
        seq!['\\', 'r']
    } else if u < 32 {
        seq!['\\', 'u', '0', '0', hex_digit(u / 16), hex_digit(u % 16)]
    } else {
        seq![c]
    }
}

/// A text as a JSON string literal.
pub open spec fn json_string(s: Seq<char>) -> Seq<char> {
    seq!['"'] + s.map_values(|c: char| json_char(c)).flatten() + seq!['"']
}

/// The string literals of `items`, separated by commas.
pub open spec fn json_items(items: Seq<Seq<char>>) -> Seq<char>
    decreases items.len(),
{
    if items.len() == 0 {
        Seq::empty()
    } else if items.len() == 1 {
        json_string(items[0])
    } else {
        json_items(items.drop_last()) + seq![','] + json_string(items.last())
    }
}

/// The compact JSON array of `items` (`["a","b"]`), as UTF-8 bytes.
pub open spec fn json_string_array(items: Seq<Seq<char>>) -> Seq<u8> {
    encode_utf8(seq!['['] + json_items(items) + seq![']'])
}

/// The values of an attribute list, in its (key) order.
pub open spec fn attr_values(s: AttrSeq) -> Seq<Seq<char>> {
    s.map_values(|p: (Seq<char>, Seq<char>)| p.1)
}

/// The message key of a resource: its attribute values, in key order, as a
/// compact JSON array.
pub open spec fn spec_key_bytes(s: AttrSeq) -> Seq<u8> {
    json_string_array(attr_values(s))
}

/// Calls `serde_json::to_vec` on a list of strings: the compact JSON array of
/// the strings, with `serde_json`'s string escapes, as UTF-8 bytes. Writing
/// strings into a vector does not fail, so the empty fallback is never taken.
#[verifier::external_body]
fn json_array_of_strings(items: &Vec<&str>) -> (r: Vec<u8>)
    ensures
        r@ == json_string_array(items@.map_values(|t: &str| t@)),
{
    serde_json::to_vec(items).unwrap_or_default()
}

/// The message key of a resource: its attribute values in key order as a
/// compact JSON array, e.g. `["1","2"]` for `{b: "2", a: "1"}`.
pub fn encode_key_values(attrs: &Attributes) -> (r: Vec<u8>)
    ensures
        r@ == spec_key_bytes(attrs@),
{
    let pairs = attrs.pairs();
    let mut values: Vec<&str> = Vec::new();
    let mut i: usize = 0;
    while i < pairs.len()
        invariant
            i <= pairs@.len(),
            pairs@.map_values(|p: (String, String)| (p.0@, p.1@)) == attrs@,
            values@.map_values(|t: &str| t@) == attr_values(attrs@).take(i as int),
        decreases pairs@.len() - i,
    {
        let ghost old_values = values@;
        let v = pairs[i].1.as_str();
        values.push(v);
        proof {
            assert(attrs@[i as int] == (pairs@[i as int].0@, pairs@[i as int].1@));
            assert(values@.map_values(|t: &str| t@) =~= old_values.map_values(|t: &str| t@).push(
                v@,
            ));
            assert(values@.map_values(|t: &str| t@) =~= attr_values(attrs@).take(i + 1));
        }
        i = i + 1;
    }
    proof {
        assert(attr_values(attrs@).take(pairs@.len() as int) =~= attr_values(attrs@));
    }
    json_array_of_strings(&values)
}

} // verus!
