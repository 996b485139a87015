//! Counting of the (schema, key) pairs seen in the sample.
//!
//! A schema is the sorted list of a resource's attribute names joined by `|`;
//! its key is the JSON array of the attribute values in the same order.

use vstd::prelude::*;

use crate::attributes::{AttrSeq, Attributes};
use crate::order::bytes_equal;
use crate::partitioning::{encode_key_values, spec_key_bytes};
use crate::pairs::{
    firsts_distinct, has_first, lemma_pairs_map_at, lemma_pairs_map_missing, lemma_pairs_map_push,
    lemma_pairs_map_update, lemma_pairs_prefix, lemma_seq_sum_bound, lemma_seq_sum_prefix,
    lemma_seq_sum_update, pairs_map, seq_sum,
};

verus! {

/// Counts per schema, per key.
pub type CountsMap = Map<Seq<char>, Map<Seq<u8>, nat>>;

/// How often one key was seen.
#[derive(Debug, PartialEq, Eq)]
pub struct KeyCount {
    pub key: Vec<u8>,
    pub count: usize,
}

/// The keys seen for one schema, with their counts.
#[derive(Debug, PartialEq, Eq)]
pub struct SchemaEntry {
    pub schema: String,
    pub keys: Vec<KeyCount>,
}

/// The (key, count) pairs of a key list.
pub open spec fn key_pairs(ks: Seq<KeyCount>) -> Seq<(Seq<u8>, nat)> {
    ks.map_values(|kc: KeyCount| (kc.key@, kc.count as nat))
}

/// A key list read as a map from key to count.
pub open spec fn key_counts_map(ks: Seq<KeyCount>) -> Map<Seq<u8>, nat> {
    pairs_map(key_pairs(ks))
}

/// The counts of a key list.
pub open spec fn key_count_values(ks: Seq<KeyCount>) -> Seq<nat> {
    ks.map_values(|kc: KeyCount| kc.count as nat)
}

/// The sum of the counts of a key list.
pub open spec fn keys_total(ks: Seq<KeyCount>) -> nat {
    seq_sum(key_count_values(ks))
}

/// The (schema, key map) pairs of a schema list.
pub open spec fn schema_pairs(es: Seq<SchemaEntry>) -> Seq<(Seq<char>, Map<Seq<u8>, nat>)> {
    es.map_values(|e: SchemaEntry| (e.schema@, key_counts_map(e.keys@)))
}

/// A schema list read as counts per schema, per key.
pub open spec fn entries_map(es: Seq<SchemaEntry>) -> CountsMap {
    pairs_map(schema_pairs(es))
}

/// The per-schema totals of a schema list.
pub open spec fn entry_totals(es: Seq<SchemaEntry>) -> Seq<nat> {
    es.map_values(|e: SchemaEntry| keys_total(e.keys@))
}

/// The sum of all counts of a schema list.
pub open spec fn entries_total(es: Seq<SchemaEntry>) -> nat {
    seq_sum(entry_totals(es))
}

/// Every count of a key list is at least one.
pub open spec fn keys_positive(ks: Seq<KeyCount>) -> bool {
    forall|j: int| 0 <= j < ks.len() ==> (#[trigger] ks[j]).count > 0
}

/// No schema occurs twice, no key occurs twice under one schema, every
/// schema has at least one key, and every count is at least one.
pub open spec fn entries_distinct(es: Seq<SchemaEntry>) -> bool {
    &&& firsts_distinct(schema_pairs(es))
    &&& forall|i: int| 0 <= i < es.len() ==> firsts_distinct(key_pairs(#[trigger] es[i].keys@))
    &&& forall|i: int| 0 <= i < es.len() ==> (#[trigger] es[i].keys@).len() > 0
    &&& forall|i: int| 0 <= i < es.len() ==> keys_positive(#[trigger] es[i].keys@)
}

/// The keys seen under `schema`, none where it was never seen.
pub open spec fn keys_of(m: CountsMap, schema: Seq<char>) -> Map<Seq<u8>, nat> {
    if m.contains_key(schema) {
        m[schema]
    } else {
        Map::empty()
    }
}

/// The count of `key` in a key map, zero where it is absent.
pub open spec fn key_count_in(x: Map<Seq<u8>, nat>, key: Seq<u8>) -> nat {
    if x.contains_key(key) {
        x[key]
    } else {
        0
    }
}

/// Two key maps added together: the union of the keys, with summed counts.
pub open spec fn merge_keys(x: Map<Seq<u8>, nat>, y: Map<Seq<u8>, nat>) -> Map<Seq<u8>, nat> {
    Map::new(
        |k: Seq<u8>| x.contains_key(k) || y.contains_key(k),
        |k: Seq<u8>| key_count_in(x, k) + key_count_in(y, k),
    )
}

/// Two count maps added together: the union of the schemas, each with its
/// key maps added.
pub open spec fn merge_counts(a: CountsMap, b: CountsMap) -> CountsMap {
    Map::new(
        |s: Seq<char>| a.contains_key(s) || b.contains_key(s),
        |s: Seq<char>| merge_keys(keys_of(a, s), keys_of(b, s)),
    )
}

/// A list of count maps added together, from the empty map.
pub open spec fn merge_seq(ms: Seq<CountsMap>) -> CountsMap
    decreases ms.len(),
{
    if ms.len() == 0 {
        Map::empty()
    } else {
        merge_counts(merge_seq(ms.drop_last()), ms.last())
    }
}

/// The totals of a list of counts.
pub open spec fn totals_of(parts: Seq<SchemaCounts>) -> Seq<nat> {
    parts.map_values(|p: SchemaCounts| p.spec_total())
}

/// The views of a list of counts.
pub open spec fn views_of(parts: Seq<SchemaCounts>) -> Seq<CountsMap> {
    parts.map_values(|p: SchemaCounts| p@)
}

/// The sum of the counts of a key list.
pub fn total_count(keys: &Vec<KeyCount>) -> (n: usize)
    requires
        keys_total(keys@) <= usize::MAX,
    ensures
        n == keys_total(keys@),
{
    let mut sum: usize = 0;
    let mut i: usize = 0;
    while i < keys.len()
        invariant
            i <= keys@.len(),
            keys_total(keys@) <= usize::MAX,
            sum == seq_sum(key_count_values(keys@).take(i as int)),
        decreases keys@.len() - i,
    {
        proof {
            lemma_seq_sum_prefix(key_count_values(keys@), i as int);
            lemma_seq_sum_prefix(key_count_values(keys@), i + 1);
        }
        sum = sum + keys[i].count;
        i = i + 1;
    }
    proof {
        assert(key_count_values(keys@).take(keys@.len() as int) =~= key_count_values(keys@));
    }
    sum
}

/// The count of `key` under `schema`, zero where it was never seen.
pub open spec fn count_of(m: CountsMap, schema: Seq<char>, key: Seq<u8>) -> nat {
    if m.contains_key(schema) && m[schema].contains_key(key) {
        m[schema][key]
    } else {
        0
    }
}

/// `m` with the count of `key` under `schema` raised by `n`.
pub open spec fn bump(m: CountsMap, schema: Seq<char>, key: Seq<u8>, n: nat) -> CountsMap {
    let inner = if m.contains_key(schema) {
        m[schema]
    } else {
        Map::empty()
    };
    m.insert(schema, inner.insert(key, count_of(m, schema, key) + n))
}

/// The schema of a resource: its attribute names, in order, joined by `|`.
pub open spec fn spec_schema(s: AttrSeq) -> Seq<char>
    decreases s.len(),
{
    if s.len() == 0 {
        Seq::empty()
    } else if s.len() == 1 {
        s[0].0
    } else {
        spec_schema(s.drop_last()) + seq!['|'] + s.last().0
    }
}

/// The counts after recording one occurrence of each resource of `rs`, in order.
pub open spec fn record_all(m: CountsMap, rs: Seq<AttrSeq>) -> CountsMap
    decreases rs.len(),
{
    if rs.len() == 0 {
        m
    } else {
        bump(record_all(m, rs.drop_last()), spec_schema(rs.last()), spec_key_bytes(rs.last()), 1)
    }
}

/// The schema of a resource: its sorted attribute names joined by `|`,
/// e.g. `a|m|z`.
pub fn schema_of(attrs: &Attributes) -> (r: String)
    ensures
        r@ == spec_schema(attrs@),
        attrs@.len() > 0 ==> r@.len() + 1 == seq_sum(name_widths(attrs@)),
        forall|i: int|
            0 <= i < attrs@.len() ==> name_offset(attrs@, i) + attrs@[i].0.len() <= r@.len()
                && r@.subrange(name_offset(attrs@, i), name_offset(attrs@, i) + attrs@[i].0.len())
                == (#[trigger] attrs@[i]).0,
        forall|i: int| 0 < i < attrs@.len() ==> #[trigger] r@[name_offset(attrs@, i) - 1] == '|',
{
    proof {
        lemma_schema_lists_every_name(attrs@);
    }
    let pairs = attrs.pairs();
    let mut out = String::new();
    let mut i: usize = 0;
    while i < pairs.len()
        invariant
            i <= pairs@.len(),
            pairs@.map_values(|p: (String, String)| (p.0@, p.1@)) == attrs@,
            out@ == spec_schema(attrs@.take(i as int)),
        decreases pairs@.len() - i,
    {
        let ghost before = out@;
        if i > 0 {
            out.append("|");
        }
        out.append(pairs[i].0.as_str());
        proof {
            reveal_strlit("|");
            let t = attrs@.take(i + 1);
            assert(t.drop_last() =~= attrs@.take(i as int));
            assert(t.last() == attrs@[i as int]);
            if i == 0 {
                assert(out@ =~= t[0].0);
            } else {
                assert(out@ =~= before + seq!['|'] + t.last().0);
            }
        }
        i = i + 1;
    }
    proof {
        assert(attrs@.take(pairs@.len() as int) =~= attrs@);
    }
    out
}

/// Counts of (schema, key) pairs. Each consumer worker owns one; the
/// counts of several workers are combined with [`SchemaCounts::merge_all`].
pub struct SchemaCounts {
    entries: Vec<SchemaEntry>,
    total: usize,
}

impl View for SchemaCounts {
    type V = CountsMap;

    closed spec fn view(&self) -> CountsMap {
        entries_map(self.entries@)
    }
}

impl SchemaCounts {
    #[verifier::type_invariant]
    spec fn inv(self) -> bool {
        &&& entries_distinct(self.entries@)
        &&& self.total as nat == entries_total(self.entries@)
    }

    /// The number of recorded occurrences, over all schemas and keys.
    pub closed spec fn spec_total(&self) -> nat {
        self.total as nat
    }

    /// Empty counts.
    pub fn new() -> (r: Self)
        ensures
            r@ == CountsMap::empty(),
            r.spec_total() == 0,
    {
        let r = SchemaCounts { entries: Vec::new(), total: 0 };
        assert(r@ =~= CountsMap::empty());
        assert(entry_totals(r.entries@) =~= Seq::<nat>::empty());
        r
    }

    /// The number of recorded occurrences, over all schemas and keys.
    pub fn total(&self) -> (n: usize)
        ensures
            n == self.spec_total(),
    {
        self.total
    }

    /// Records one occurrence of each resource: the count of its key under
    /// its schema goes up by one.
    pub fn add(&mut self, resources: Vec<Attributes>)
        requires
            old(self).spec_total() + resources@.len() <= usize::MAX,
        ensures
            final(self)@ == record_all(old(self)@, resources@.map_values(|a: Attributes| a@)),
            final(self).spec_total() == old(self).spec_total() + resources@.len(),
    {
        let ghost m0 = self@;
        let ghost t0 = self.spec_total();
        let ghost rs = resources@.map_values(|a: Attributes| a@);
        let mut i: usize = 0;
        while i < resources.len()
            invariant
                i <= resources@.len(),
                rs == resources@.map_values(|a: Attributes| a@),
                t0 + resources@.len() <= usize::MAX,
                self@ == record_all(m0, rs.take(i as int)),
                self.spec_total() == t0 + i,
            decreases resources@.len() - i,
        {
            let schema = schema_of(&resources[i]);
            let key = encode_key_values(&resources[i]);
            self.record(schema, key, 1);
            proof {
                assert(rs.take(i + 1).drop_last() =~= rs.take(i as int));
                assert(rs.take(i + 1).last() == resources@[i as int]@);
            }
            i = i + 1;
        }
        proof {
            assert(rs.take(resources@.len() as int) =~= rs);
        }
    }

    /// Combines the counts of several workers: each count is the sum of the
    /// workers' counts for that schema and key.
    pub fn merge_all(parts: Vec<SchemaCounts>) -> (r: SchemaCounts)
        requires
            seq_sum(totals_of(parts@)) <= usize::MAX,
        ensures
            r@ == merge_seq(views_of(parts@)),
            r.spec_total() == seq_sum(totals_of(parts@)),
    {
        let mut merged = SchemaCounts::new();
        let mut p: usize = 0;
        proof {
            assert(views_of(parts@).take(0) =~= Seq::<CountsMap>::empty());
            assert(totals_of(parts@).take(0) =~= Seq::<nat>::empty());
        }
        while p < parts.len()
            invariant
                p <= parts@.len(),
                seq_sum(totals_of(parts@)) <= usize::MAX,
                merged@ == merge_seq(views_of(parts@).take(p as int)),
                merged.spec_total() == seq_sum(totals_of(parts@).take(p as int)),
            decreases parts@.len() - p,
        {
            proof {
                lemma_seq_sum_prefix(totals_of(parts@), p as int);
                lemma_seq_sum_prefix(totals_of(parts@), p + 1);
                assert(views_of(parts@).take(p + 1).drop_last() =~= views_of(parts@).take(p as int));
            }
            merged.merge_from(&parts[p]);
            p = p + 1;
        }
        proof {
            assert(views_of(parts@).take(parts@.len() as int) =~= views_of(parts@));
            assert(totals_of(parts@).take(parts@.len() as int) =~= totals_of(parts@));
        }
        merged
    }

    /// Adds the counts of `other` to these.
    fn merge_from(&mut self, other: &SchemaCounts)
        requires
            old(self).spec_total() + other.spec_total() <= usize::MAX,
        ensures
            final(self)@ == merge_counts(old(self)@, other@),
            final(self).spec_total() == old(self).spec_total() + other.spec_total(),
    {
        proof {
            use_type_invariant(other);
        }
        let ghost m0 = self@;
        let ghost t0 = self.spec_total();
        let es = &other.entries;
        let ghost sp = schema_pairs(es@);
        proof {
            assert(sp.take(0) =~= Seq::<(Seq<char>, Map<Seq<u8>, nat>)>::empty());
            lemma_merge_counts_empty(m0);
            assert(entry_totals(es@).take(0) =~= Seq::<nat>::empty());
        }
        let mut i: usize = 0;
        while i < es.len()
            invariant
                i <= es@.len(),
                es@ == other.entries@,
                sp == schema_pairs(es@),
                entries_distinct(es@),
                other.spec_total() == entries_total(es@),
                t0 + entries_total(es@) <= usize::MAX,
                self@ == merge_counts(m0, pairs_map(sp.take(i as int))),
                self.spec_total() == t0 + seq_sum(entry_totals(es@).take(i as int)),
            decreases es@.len() - i,
        {
            let e = &es[i];
            let ghost s = e.schema@;
            let ghost ks = e.keys@;
            let ghost kp = key_pairs(ks);
            let ghost me = self@;
            let ghost te = self.spec_total();
            proof {
                assert(firsts_distinct(kp));
                assert(keys_positive(es@[i as int].keys@));
                lemma_seq_sum_prefix(entry_totals(es@), i as int);
                lemma_seq_sum_prefix(entry_totals(es@), i + 1);
                assert(kp.take(0) =~= Seq::<(Seq<u8>, nat)>::empty());
                assert(key_count_values(ks).take(0) =~= Seq::<nat>::empty());
            }
            let mut j: usize = 0;
            while j < e.keys.len()
                invariant
                    j <= ks.len(),
                    ks == e.keys@,
                    s == e.schema@,
                    kp == key_pairs(ks),
                    firsts_distinct(kp),
                    keys_positive(ks),
                    te + keys_total(ks) <= usize::MAX,
                    j == 0 ==> self@ == me,
                    j > 0 ==> self@ == me.insert(s, merge_keys(keys_of(me, s), pairs_map(kp.take(j as int)))),
                    self.spec_total() == te + seq_sum(key_count_values(ks).take(j as int)),
                decreases ks.len() - j,
            {
                proof {
                    lemma_seq_sum_prefix(key_count_values(ks), j as int);
                    lemma_seq_sum_prefix(key_count_values(ks), j + 1);
                    lemma_record_key_step(me, s, kp, j as int, self@);
                }
                let schema = e.schema.clone();
                let key = e.keys[j].key.clone();
                proof {
                    assert(key@ =~= e.keys@[j as int].key@);
                    assert(ks[j as int].count > 0);
                }
                self.record(schema, key, e.keys[j].count);
                j = j + 1;
            }
            proof {
                assert(kp.take(ks.len() as int) =~= kp);
                assert(key_count_values(ks).take(ks.len() as int) =~= key_count_values(ks));
                assert(sp[i as int] == (s, pairs_map(kp)));
                lemma_record_schema_step(m0, sp, i as int, me);
            }
            i = i + 1;
        }
        proof {
            assert(sp.take(es@.len() as int) =~= sp);
            assert(entry_totals(es@).take(es@.len() as int) =~= entry_totals(es@));
        }
    }

    /// Hands out the counts: one entry per schema, each with its keys.
    pub fn snapshot(self) -> (r: Vec<SchemaEntry>)
        ensures
            entries_map(r@) == self@,
            entries_distinct(r@),
            entries_total(r@) == self.spec_total(),
            r@.len() == 0 <==> self@ == CountsMap::empty(),
    {
        proof {
            use_type_invariant(&self);
            let sp = schema_pairs(self.entries@);
            if self.entries@.len() == 0 {
                assert(self@ =~= CountsMap::empty());
            } else {
                lemma_pairs_map_at(sp, 0);
                assert(self@.contains_key(sp[0].0));
            }
        }
        self.entries
    }

    /// Raises the count of `key` under `schema` by `amount`; an amount of
    /// zero records nothing.
    pub fn record(&mut self, schema: String, key: Vec<u8>, amount: usize)
        requires
            old(self).spec_total() + amount <= usize::MAX,
        ensures
            final(self)@ == if amount == 0 {
                old(self)@
            } else {
                bump(old(self)@, schema@, key@, amount as nat)
            },
            final(self).spec_total() == old(self).spec_total() + amount,
    {
        proof {
            use_type_invariant(&*self);
        }
        if amount == 0 {
            return;
        }
        let ghost es = self.entries@;
        let ghost m = self@;
        let mut taken = SchemaCounts::new();
        std::mem::swap(&mut taken, self);
        let SchemaCounts { entries: mut entries, total: old_total } = taken;
        let mut i: usize = 0;
        while i < entries.len() && !(entries[i].schema == schema)
            invariant
                entries@ == es,
                i <= es.len(),
                forall|j: int| 0 <= j < i ==> #[trigger] es[j].schema@ != schema@,
            decreases es.len() - i,
        {
            i = i + 1;
        }
        if i < entries.len() {
            let e = entries.remove(i);
            let ghost ks = e.keys@;
            let SchemaEntry { schema: e_schema, keys: mut keys } = e;
            let mut j: usize = 0;
            while j < keys.len() && !bytes_equal(keys[j].key.as_slice(), key.as_slice())
                invariant
                    keys@ == ks,
                    j <= ks.len(),
                    forall|t: int| 0 <= t < j ==> #[trigger] ks[t].key@ != key@,
                decreases ks.len() - j,
            {
                j = j + 1;
            }
            proof {
                lemma_pairs_map_at(schema_pairs(es), i as int);
                assert(schema_pairs(es)[i as int].0 == schema@);
                assert(firsts_distinct(key_pairs(ks)));
                lemma_seq_sum_bound(entry_totals(es), i as int);
            }
            if j < keys.len() {
                let kc = keys.remove(j);
                proof {
                    lemma_seq_sum_bound(key_count_values(ks), j as int);
                }
                let new_kc = KeyCount { key: kc.key, count: kc.count + amount };
                keys.insert(j, new_kc);
                proof {
                    assert(keys@ =~= ks.update(j as int, new_kc));
                    assert(key_pairs(keys@) =~= key_pairs(ks).update(
                        j as int,
                        (key_pairs(ks)[j as int].0, (kc.count + amount) as nat),
                    ));
                    lemma_pairs_map_at(key_pairs(ks), j as int);
                    lemma_pairs_map_update(
                        key_pairs(ks),
                        j as int,
                        (kc.count + amount) as nat,
                    );
                    assert(key_count_values(keys@) =~= key_count_values(ks).update(
                        j as int,
                        (kc.count + amount) as nat,
                    ));
                    lemma_seq_sum_update(
                        key_count_values(ks),
                        j as int,
                        (kc.count + amount) as nat,
                    );
                    assert(firsts_distinct(key_pairs(keys@)));
                }
            } else {
                keys.push(KeyCount { key, count: amount });
                proof {
                    lemma_pairs_map_missing(key_pairs(ks), key@);
                    assert(key_pairs(keys@) =~= key_pairs(ks).push((key@, amount as nat)));
                    lemma_pairs_map_push(key_pairs(ks), key@, amount as nat);
                    assert(key_count_values(keys@) =~= key_count_values(ks).push(amount as nat));
                    assert(key_count_values(ks).push(amount as nat).drop_last() =~= key_count_values(ks));
                    assert(firsts_distinct(key_pairs(keys@)));
                }
            }
            let new_e = SchemaEntry { schema: e_schema, keys };
            entries.insert(i, new_e);
            proof {
                assert(entries@ =~= es.update(i as int, new_e));
                assert(schema_pairs(entries@) =~= schema_pairs(es).update(
                    i as int,
                    (schema@, key_counts_map(new_e.keys@)),
                ));
                lemma_pairs_map_update(schema_pairs(es), i as int, key_counts_map(new_e.keys@));
                assert(entry_totals(entries@) =~= entry_totals(es).update(
                    i as int,
                    keys_total(new_e.keys@),
                ));
                lemma_seq_sum_update(entry_totals(es), i as int, keys_total(new_e.keys@));
                assert(firsts_distinct(key_pairs(new_e.keys@)));
                assert forall|t: int| 0 <= t < entries@.len() implies firsts_distinct(
                    key_pairs(#[trigger] entries@[t].keys@),
                ) by {
                    if t != i {
                        assert(entries@[t] == es[t]);
                        assert(firsts_distinct(key_pairs(es[t].keys@)));
                    } else {
                        assert(entries@[t] == new_e);
                    }
                }
                assert forall|t: int| 0 <= t < entries@.len() implies (
                #[trigger] entries@[t].keys@).len() > 0 by {
                    if t != i {
                        assert(entries@[t] == es[t]);
                    } else {
                        assert(entries@[t] == new_e);
                    }
                }
                assert(bump(m, schema@, key@, amount as nat) =~= entries_map(entries@));
            }
        } else {
            let mut keys: Vec<KeyCount> = Vec::new();
            keys.push(KeyCount { key, count: amount });
            let new_e = SchemaEntry { schema, keys };
            entries.push(new_e);
            proof {
                lemma_pairs_map_missing(schema_pairs(es), new_e.schema@);
                assert(schema_pairs(entries@) =~= schema_pairs(es).push(
                    (new_e.schema@, key_counts_map(new_e.keys@)),
                ));
                lemma_pairs_map_push(schema_pairs(es), new_e.schema@, key_counts_map(new_e.keys@));
                assert(key_pairs(new_e.keys@) =~= seq![(new_e.keys@[0].key@, amount as nat)]);
                assert(key_count_values(new_e.keys@) =~= seq![amount as nat]);
                assert(seq![amount as nat].drop_last() =~= Seq::<nat>::empty());
                assert(seq_sum(Seq::<nat>::empty()) == 0);
                assert(seq_sum(seq![amount as nat]) == amount);
                assert(keys_total(new_e.keys@) == amount);
                assert(entry_totals(entries@) =~= entry_totals(es).push(amount as nat));
                assert(entry_totals(es).push(amount as nat).drop_last() =~= entry_totals(es));
                assert forall|t: int| 0 <= t < entries@.len() implies firsts_distinct(
                    key_pairs(#[trigger] entries@[t].keys@),
                ) by {
                    if t < es.len() {
                        assert(entries@[t] == es[t]);
                    }
                }
                assert forall|t: int| 0 <= t < entries@.len() implies (
                #[trigger] entries@[t].keys@).len() > 0 by {
                    if t < es.len() {
                        assert(entries@[t] == es[t]);
                    }
                }
                assert(!m.contains_key(schema@));
                lemma_pairs_map_at(key_pairs(new_e.keys@), 0);
                assert forall|x: Seq<u8>| #[trigger] has_first(key_pairs(new_e.keys@), x) <==> x == key@ by {
                    if x == key@ {
                        assert(key_pairs(new_e.keys@)[0].0 == x);
                    }
                }
                assert(key_counts_map(new_e.keys@) =~= Map::<Seq<u8>, nat>::empty().insert(key@, amount as nat));
                assert(bump(m, schema@, key@, amount as nat) =~= entries_map(entries@));
            }
        }
        let new_total = old_total + amount;
        *self = SchemaCounts { entries, total: new_total };
    }
}

/// Adding an empty map changes nothing.
pub proof fn lemma_merge_counts_empty(m: CountsMap)
    ensures
        merge_counts(m, pairs_map(Seq::<(Seq<char>, Map<Seq<u8>, nat>)>::empty())) == m,
{
    let e = pairs_map(Seq::<(Seq<char>, Map<Seq<u8>, nat>)>::empty());
    assert(e =~= Map::empty());
    assert forall|s: Seq<char>| #[trigger] m.contains_key(s) implies merge_counts(m, e)[s] == m[s] by {
        assert(merge_keys(m[s], Map::empty()) =~= m[s]);
    }
    assert(merge_counts(m, e) =~= m);
}

/// Recording the `j`-th key of a schema's key list continues the merge of
/// that list into the counts.
pub proof fn lemma_record_key_step(
    me: CountsMap,
    s: Seq<char>,
    kp: Seq<(Seq<u8>, nat)>,
    j: int,
    cur: CountsMap,
)
    requires
        firsts_distinct(kp),
        0 <= j < kp.len(),
        j == 0 ==> cur == me,
        j > 0 ==> cur == me.insert(s, merge_keys(keys_of(me, s), pairs_map(kp.take(j)))),
    ensures
        bump(cur, s, kp[j].0, kp[j].1) == me.insert(
            s,
            merge_keys(keys_of(me, s), pairs_map(kp.take(j + 1))),
        ),
{
    lemma_pairs_prefix(kp, j);
    let x = keys_of(me, s);
    let before = pairs_map(kp.take(j));
    let k = kp[j].0;
    let c = kp[j].1;
    if j == 0 {
        assert(kp.take(0) =~= Seq::<(Seq<u8>, nat)>::empty());
        assert(before =~= Map::empty());
        assert(merge_keys(x, before) =~= x);
    }
    assert(keys_of(cur, s) == merge_keys(x, before));
    assert(!before.contains_key(k));
    assert(merge_keys(x, before).insert(k, key_count_in(x, k) + c) =~= merge_keys(
        x,
        before.insert(k, c),
    ));
    assert(bump(cur, s, k, c) =~= me.insert(s, merge_keys(x, pairs_map(kp.take(j + 1)))));
}

/// Merging the `i`-th schema's keys continues the merge of a schema list into
/// the counts.
pub proof fn lemma_record_schema_step(
    m0: CountsMap,
    sp: Seq<(Seq<char>, Map<Seq<u8>, nat>)>,
    i: int,
    me: CountsMap,
)
    requires
        firsts_distinct(sp),
        0 <= i < sp.len(),
        me == merge_counts(m0, pairs_map(sp.take(i))),
    ensures
        me.insert(sp[i].0, merge_keys(keys_of(me, sp[i].0), sp[i].1)) == merge_counts(
            m0,
            pairs_map(sp.take(i + 1)),
        ),
{
    lemma_pairs_prefix(sp, i);
    let s = sp[i].0;
    let before = pairs_map(sp.take(i));
    let after = pairs_map(sp.take(i + 1));
    assert(!before.contains_key(s));
    let lhs = me.insert(s, merge_keys(keys_of(me, s), sp[i].1));
    let rhs = merge_counts(m0, after);
    if m0.contains_key(s) {
        assert(keys_of(me, s) == merge_keys(m0[s], keys_of(before, s)));
        assert(keys_of(before, s) =~= Map::empty());
        assert(merge_keys(m0[s], Map::empty()) =~= m0[s]);
    } else {
        assert(keys_of(me, s) =~= Map::empty());
    }
    assert(lhs[s] =~= rhs[s]);
    assert forall|t: Seq<char>| #[trigger] lhs.contains_key(t) && t != s implies lhs[t] == rhs[t] by {
        assert(keys_of(after, t) == keys_of(before, t));
    }
    assert(lhs =~= rhs);
}

/// The number of resources of `rs` with schema `schema` and key `key`.
pub open spec fn occurrences(rs: Seq<AttrSeq>, schema: Seq<char>, key: Seq<u8>) -> nat
    decreases rs.len(),
{
    if rs.len() == 0 {
        0
    } else {
        occurrences(rs.drop_last(), schema, key) + if spec_schema(rs.last()) == schema
            && spec_key_bytes(rs.last()) == key {
            1nat
        } else {
            0nat
        }
    }
}

/// Raising one count changes that count alone.
pub proof fn lemma_bump_count(m: CountsMap, s: Seq<char>, k: Seq<u8>, n: nat, s2: Seq<char>, k2: Seq<u8>)
    ensures
        count_of(bump(m, s, k, n), s2, k2) == count_of(m, s2, k2) + if s == s2 && k == k2 {
            n
        } else {
            0
        },
{
}

/// Recording resources counts each of them once: afterwards the count of a
/// (schema, key) pair is its count before plus the number of resources with
/// that schema and key.
pub proof fn lemma_record_all_counts(m: CountsMap, rs: Seq<AttrSeq>, schema: Seq<char>, key: Seq<u8>)
    ensures
        count_of(record_all(m, rs), schema, key) == count_of(m, schema, key) + occurrences(
            rs,
            schema,
            key,
        ),
    decreases rs.len(),
{
    if rs.len() > 0 {
        lemma_record_all_counts(m, rs.drop_last(), schema, key);
        lemma_bump_count(
            record_all(m, rs.drop_last()),
            spec_schema(rs.last()),
            spec_key_bytes(rs.last()),
            1,
            schema,
            key,
        );
    }
}

/// Adding two count maps adds their counts.
pub proof fn lemma_merge_counts_count(a: CountsMap, b: CountsMap, s: Seq<char>, k: Seq<u8>)
    ensures
        count_of(merge_counts(a, b), s, k) == count_of(a, s, k) + count_of(b, s, k),
{
}

/// The counts of each part, for one schema and key.
pub open spec fn part_counts(ms: Seq<CountsMap>, s: Seq<char>, k: Seq<u8>) -> Seq<nat> {
    ms.map_values(|m: CountsMap| count_of(m, s, k))
}

/// Merging a list of counts sums them: each merged count is the sum of the
/// parts' counts for that schema and key.
pub proof fn lemma_merge_seq_counts(ms: Seq<CountsMap>, s: Seq<char>, k: Seq<u8>)
    ensures
        count_of(merge_seq(ms), s, k) == seq_sum(part_counts(ms, s, k)),
    decreases ms.len(),
{
    if ms.len() > 0 {
        lemma_merge_seq_counts(ms.drop_last(), s, k);
        lemma_merge_counts_count(merge_seq(ms.drop_last()), ms.last(), s, k);
        assert(part_counts(ms, s, k).drop_last() =~= part_counts(ms.drop_last(), s, k));
    }
}

/// A schema is present after merging exactly where some part has it, and a
/// key under it exactly where some part has that key under it.
pub proof fn lemma_merge_seq_domain(ms: Seq<CountsMap>, s: Seq<char>, k: Seq<u8>)
    ensures
        merge_seq(ms).contains_key(s) <==> exists|i: int|
            0 <= i < ms.len() && (#[trigger] ms[i]).contains_key(s),
        (merge_seq(ms).contains_key(s) && merge_seq(ms)[s].contains_key(k)) <==> exists|i: int|
            0 <= i < ms.len() && (#[trigger] ms[i]).contains_key(s) && ms[i][s].contains_key(k),
    decreases ms.len(),
{
    if ms.len() > 0 {
        let d = ms.drop_last();
        lemma_merge_seq_domain(d, s, k);
        if exists|i: int| 0 <= i < d.len() && (#[trigger] d[i]).contains_key(s) {
            let i = choose|i: int| 0 <= i < d.len() && (#[trigger] d[i]).contains_key(s);
            assert(ms[i] == d[i]);
        }
        if exists|i: int| 0 <= i < d.len() && (#[trigger] d[i]).contains_key(s) && d[i][s].contains_key(k) {
            let i = choose|i: int| 0 <= i < d.len() && (#[trigger] d[i]).contains_key(s) && d[i][s].contains_key(k);
            assert(ms[i] == d[i]);
        }
        if exists|i: int| 0 <= i < ms.len() && (#[trigger] ms[i]).contains_key(s) {
            let i = choose|i: int| 0 <= i < ms.len() && (#[trigger] ms[i]).contains_key(s);
            if i < d.len() {
                assert(d[i] == ms[i]);
            }
        }
        if exists|i: int| 0 <= i < ms.len() && (#[trigger] ms[i]).contains_key(s) && ms[i][s].contains_key(k) {
            let i = choose|i: int| 0 <= i < ms.len() && (#[trigger] ms[i]).contains_key(s) && ms[i][s].contains_key(k);
            if i < d.len() {
                assert(d[i] == ms[i]);
            }
        }
    }
}

/// Recording two lists of resources one after the other is recording their
/// concatenation.
pub proof fn lemma_record_all_concat(m: CountsMap, a: Seq<AttrSeq>, b: Seq<AttrSeq>)
    ensures
        record_all(m, a + b) == record_all(record_all(m, a), b),
    decreases b.len(),
{
    if b.len() == 0 {
        assert(a + b =~= a);
    } else {
        lemma_record_all_concat(m, a, b.drop_last());
        assert((a + b).drop_last() =~= a + b.drop_last());
        assert((a + b).last() == b.last());
    }
}

/// Adding counts in which one count was raised by one is raising that count
/// in the sum.
proof fn lemma_merge_bump(m: CountsMap, x: CountsMap, s: Seq<char>, k: Seq<u8>)
    ensures
        merge_counts(m, bump(x, s, k, 1)) == bump(merge_counts(m, x), s, k, 1),
{
    let lhs = merge_counts(m, bump(x, s, k, 1));
    let rhs = bump(merge_counts(m, x), s, k, 1);
    lemma_merge_counts_count(m, x, s, k);
    assert(lhs[s] =~= rhs[s]);
    assert forall|t: Seq<char>| #[trigger] lhs.contains_key(t) && t != s implies lhs[t] == rhs[t] by {
        assert(keys_of(bump(x, s, k, 1), t) == keys_of(x, t));
    }
    assert(lhs =~= rhs);
}

/// Adding the counts of a list of resources, recorded from nothing, is
/// recording that list.
proof fn lemma_merge_record_all(m: CountsMap, rs: Seq<AttrSeq>)
    ensures
        merge_counts(m, record_all(CountsMap::empty(), rs)) == record_all(m, rs),
    decreases rs.len(),
{
    if rs.len() == 0 {
        assert forall|t: Seq<char>| #[trigger] m.contains_key(t) implies merge_counts(
            m,
            CountsMap::empty(),
        )[t] == m[t] by {
            assert(merge_keys(m[t], Map::empty()) =~= m[t]);
        }
        assert(merge_counts(m, CountsMap::empty()) =~= m);
    } else {
        let d = rs.drop_last();
        lemma_merge_record_all(m, d);
        lemma_merge_bump(
            m,
            record_all(CountsMap::empty(), d),
            spec_schema(rs.last()),
            spec_key_bytes(rs.last()),
        );
    }
}

/// The resource lists of several workers, one after the other.
pub open spec fn concat_all(rss: Seq<Seq<AttrSeq>>) -> Seq<AttrSeq>
    decreases rss.len(),
{
    if rss.len() == 0 {
        Seq::empty()
    } else {
        concat_all(rss.drop_last()) + rss.last()
    }
}

/// Merging the counts of workers that each recorded their own resources is
/// recording all their resources, one worker's after the other's, in one
/// set of counts.
pub proof fn lemma_merge_equals_adding_all(ms: Seq<CountsMap>, rss: Seq<Seq<AttrSeq>>)
    requires
        ms.len() == rss.len(),
        forall|i: int| 0 <= i < ms.len() ==> #[trigger] ms[i] == record_all(CountsMap::empty(), rss[i]),
    ensures
        merge_seq(ms) == record_all(CountsMap::empty(), concat_all(rss)),
    decreases ms.len(),
{
    if ms.len() == 0 {
    } else {
        let d = ms.drop_last();
        let dr = rss.drop_last();
        assert forall|i: int| 0 <= i < d.len() implies #[trigger] d[i] == record_all(
            CountsMap::empty(),
            dr[i],
        ) by {
            assert(d[i] == ms[i]);
            assert(dr[i] == rss[i]);
        }
        lemma_merge_equals_adding_all(d, dr);
        assert(ms.last() == ms[ms.len() - 1]);
        lemma_merge_record_all(merge_seq(d), rss.last());
        lemma_record_all_concat(CountsMap::empty(), concat_all(dr), rss.last());
    }
}

/// Merging the counts of one worker gives those counts back.
pub proof fn lemma_merge_one(x: CountsMap)
    ensures
        merge_seq(seq![x]) == x,
{
    let e = seq![x];
    assert(e.drop_last() =~= Seq::<CountsMap>::empty());
    assert(merge_seq(e.drop_last()) == CountsMap::empty());
    assert(e.last() == x);
    assert(merge_seq(e) == merge_counts(CountsMap::empty(), x));
    let r = merge_counts(CountsMap::empty(), x);
    assert forall|t: Seq<char>| #[trigger] x.contains_key(t) implies r[t] == x[t] by {
        assert(merge_keys(Map::empty(), x[t]) =~= x[t]);
    }
    assert(r =~= x);
}

/// Every count recorded from a list of resources is at least one and
/// belongs to the schema and key of one of them; every schema recorded has
/// a key recorded under it.
pub proof fn lemma_recorded_from_resources(rs: Seq<AttrSeq>, s: Seq<char>, k: Seq<u8>)
    ensures
        record_all(CountsMap::empty(), rs).contains_key(s) ==> exists|i: int|
            0 <= i < rs.len() && spec_schema(#[trigger] rs[i]) == s && record_all(
                CountsMap::empty(),
                rs,
            )[s].contains_key(spec_key_bytes(rs[i])),
        record_all(CountsMap::empty(), rs).contains_key(s) && record_all(CountsMap::empty(), rs)[s].contains_key(k) ==> {
            &&& record_all(CountsMap::empty(), rs)[s][k] >= 1
            &&& exists|i: int|
                0 <= i < rs.len() && spec_schema(#[trigger] rs[i]) == s && spec_key_bytes(rs[i])
                    == k
        },
    decreases rs.len(),
{
    if rs.len() > 0 {
        let d = rs.drop_last();
        lemma_recorded_from_resources(d, s, k);
        let md = record_all(CountsMap::empty(), d);
        let m = record_all(CountsMap::empty(), rs);
        let ls = spec_schema(rs.last());
        let lk = spec_key_bytes(rs.last());
        let last = rs.len() - 1;
        assert(rs[last] == rs.last());
        if md.contains_key(s) && s != ls {
            let i = choose|i: int|
                0 <= i < d.len() && spec_schema(#[trigger] d[i]) == s && md[s].contains_key(
                    spec_key_bytes(d[i]),
                );
            assert(rs[i] == d[i]);
        }
        if md.contains_key(s) && s == ls {
            assert(m[s].contains_key(lk));
        }
        if m.contains_key(s) && !md.contains_key(s) {
            assert(s == ls);
            assert(m[s].contains_key(lk));
        }
        if m.contains_key(s) && m[s].contains_key(k) {
            if s == ls && k == lk {
            } else {
                assert(md.contains_key(s) && md[s].contains_key(k));
                let i = choose|i: int|
                    0 <= i < d.len() && spec_schema(#[trigger] d[i]) == s && spec_key_bytes(d[i])
                        == k;
                assert(rs[i] == d[i]);
            }
        }
    }
}

/// The room each attribute name takes in a schema: its length and one
/// separator.
pub open spec fn name_widths(s: AttrSeq) -> Seq<nat> {
    s.map_values(|p: (Seq<char>, Seq<char>)| (p.0.len() + 1) as nat)
}

/// Where the `i`-th attribute name starts in the schema.
pub open spec fn name_offset(s: AttrSeq, i: int) -> int {
    seq_sum(name_widths(s).take(i)) as int
}

/// Each name's offset is the previous one plus that name and a separator,
/// and offsets stay within the total room.
proof fn lemma_offset_step(s: AttrSeq, i: int)
    requires
        0 <= i < s.len(),
    ensures
        name_offset(s, i + 1) == name_offset(s, i) + s[i].0.len() + 1,
        name_offset(s, i + 1) <= seq_sum(name_widths(s)),
        name_offset(s, i) >= 0,
{
    let w = name_widths(s);
    lemma_seq_sum_prefix(w, i);
    lemma_seq_sum_prefix(w, i + 1);
    assert(w[i] == s[i].0.len() + 1);
}

/// Offsets before the last name do not depend on the last name.
proof fn lemma_offset_drop_last(s: AttrSeq, i: int)
    requires
        0 <= i < s.len(),
    ensures
        name_offset(s, i) == name_offset(s.drop_last(), i),
        name_offset(s, s.len() - 1) == seq_sum(name_widths(s.drop_last())),
{
    let w = name_widths(s);
    let wd = name_widths(s.drop_last());
    assert(w.take(i) =~= wd.take(i));
    assert(w.take(s.len() - 1) =~= wd);
}

/// A schema lists every attribute name, in order, one `|` between each two
/// and nothing else: the `i`-th name stands at its offset, a `|` right before
/// every name but the first, and the length is that of all names plus one
/// separator fewer than there are names.
pub proof fn lemma_schema_lists_every_name(s: AttrSeq)
    ensures
        s.len() == 0 ==> spec_schema(s).len() == 0,
        s.len() > 0 ==> spec_schema(s).len() + 1 == seq_sum(name_widths(s)),
        forall|i: int|
            0 <= i < s.len() ==> name_offset(s, i) + s[i].0.len() <= spec_schema(s).len()
                && spec_schema(s).subrange(name_offset(s, i), name_offset(s, i) + s[i].0.len())
                == (#[trigger] s[i]).0,
        forall|i: int|
            0 < i < s.len() ==> #[trigger] spec_schema(s)[name_offset(s, i) - 1] == '|',
    decreases s.len(),
{
    if s.len() == 1 {
        let w = name_widths(s);
        assert(w.drop_last() =~= Seq::<nat>::empty());
        assert(seq_sum(w.drop_last()) == 0);
        assert(w.last() == s[0].0.len() + 1);
        assert(w.take(0) =~= Seq::<nat>::empty());
        assert(spec_schema(s).subrange(0, s[0].0.len() as int) =~= s[0].0);
    } else if s.len() > 1 {
        let d = s.drop_last();
        lemma_schema_lists_every_name(d);
        lemma_schema_split(s, d);
    }
}

/// The step of the proof above: a schema of two or more names is the schema
/// of all but the last, a `|`, and the last name.
#[verifier::rlimit(40)]
proof fn lemma_schema_split(s: AttrSeq, d: AttrSeq)
    requires
        s.len() > 1,
        d == s.drop_last(),
        spec_schema(d).len() + 1 == seq_sum(name_widths(d)),
        forall|i: int|
            0 <= i < d.len() ==> name_offset(d, i) + d[i].0.len() <= spec_schema(d).len()
                && spec_schema(d).subrange(name_offset(d, i), name_offset(d, i) + d[i].0.len())
                == (#[trigger] d[i]).0,
        forall|i: int| 0 < i < d.len() ==> #[trigger] spec_schema(d)[name_offset(d, i) - 1] == '|',
    ensures
        spec_schema(s).len() + 1 == seq_sum(name_widths(s)),
        forall|i: int|
            0 <= i < s.len() ==> name_offset(s, i) + s[i].0.len() <= spec_schema(s).len()
                && spec_schema(s).subrange(name_offset(s, i), name_offset(s, i) + s[i].0.len())
                == (#[trigger] s[i]).0,
        forall|i: int|
            0 < i < s.len() ==> #[trigger] spec_schema(s)[name_offset(s, i) - 1] == '|',
{
    let a = spec_schema(d);
    let l = s.last().0;
    let n = s.len() - 1;
    assert(name_widths(s).drop_last() =~= name_widths(d));
    assert(name_widths(s).last() == l.len() + 1);
    assert(spec_schema(s) == a + seq!['|'] + l);
    lemma_offset_drop_last(s, n);
    assert forall|i: int| 0 <= i < s.len() implies name_offset(s, i) + s[i].0.len()
        <= spec_schema(s).len() && spec_schema(s).subrange(
        name_offset(s, i),
        name_offset(s, i) + s[i].0.len(),
    ) == (#[trigger] s[i]).0 by {
        lemma_schema_name_in_split(s, d, i);
    }
    assert forall|i: int| 0 < i < s.len() implies #[trigger] spec_schema(s)[name_offset(s, i) - 1]
        == '|' by {
        if i < n {
            lemma_offset_drop_last(s, i);
            lemma_offset_step(d, i);
            lemma_offset_step(d, i - 1);
            assert(a[name_offset(d, i) - 1] == '|');
            assert((a + seq!['|'] + l)[name_offset(d, i) - 1] == a[name_offset(d, i) - 1]);
        } else {
            assert((a + seq!['|'] + l)[a.len() as int] == '|');
        }
    }
}

/// One name of a schema of two or more names stands at its offset.
proof fn lemma_schema_name_in_split(s: AttrSeq, d: AttrSeq, i: int)
    requires
        s.len() > 1,
        d == s.drop_last(),
        0 <= i < s.len(),
        spec_schema(d).len() + 1 == seq_sum(name_widths(d)),
        i < d.len() ==> name_offset(d, i) + d[i].0.len() <= spec_schema(d).len()
            && spec_schema(d).subrange(name_offset(d, i), name_offset(d, i) + d[i].0.len()) == d[i].0,
    ensures
        name_offset(s, i) + s[i].0.len() <= spec_schema(s).len(),
        spec_schema(s).subrange(name_offset(s, i), name_offset(s, i) + s[i].0.len()) == s[i].0,
{
    let a = spec_schema(d);
    let l = s.last().0;
    let n = s.len() - 1;
    assert(spec_schema(s) == a + seq!['|'] + l);
    lemma_offset_drop_last(s, n);
    if i < n {
        lemma_offset_drop_last(s, i);
        assert(d[i] == s[i]);
        lemma_offset_step(d, i);
        assert((a + seq!['|'] + l).subrange(name_offset(s, i), name_offset(s, i) + s[i].0.len())
            =~= a.subrange(name_offset(d, i), name_offset(d, i) + d[i].0.len()));
    } else {
        assert((a + seq!['|'] + l).subrange(a.len() as int + 1, a.len() + 1 + l.len() as int) =~= l);
    }
}

} // verus!
