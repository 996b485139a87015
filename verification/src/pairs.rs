//! Association lists: sequences of (key, value) pairs read as maps, and sums
//! of sequences of naturals.

use vstd::prelude::*;

verus! {

/// `k` is the key of some pair of `s`.
pub open spec fn has_first<K, V>(s: Seq<(K, V)>, k: K) -> bool {
    exists|i: int| 0 <= i < s.len() && s[i].0 == k
}

/// An index at which `k` is the key, where there is one.
pub open spec fn first_index<K, V>(s: Seq<(K, V)>, k: K) -> int {
    choose|i: int| 0 <= i < s.len() && s[i].0 == k
}

/// No key occurs twice in `s`.
pub open spec fn firsts_distinct<K, V>(s: Seq<(K, V)>) -> bool {
    forall|i: int, j: int| 0 <= i < j < s.len() ==> #[trigger] s[i].0 != #[trigger] s[j].0
}

/// `s` read as a map from key to value.
pub open spec fn pairs_map<K, V>(s: Seq<(K, V)>) -> Map<K, V> {
    Map::new(|k: K| has_first(s, k), |k: K| s[first_index(s, k)].1)
}

/// The sum of a sequence of naturals.
pub open spec fn seq_sum(s: Seq<nat>) -> nat
    decreases s.len(),
{
    if s.len() == 0 {
        0
    } else {
        seq_sum(s.drop_last()) + s.last()
    }
}

/// In a list without repeated keys, the map holds each pair.
pub proof fn lemma_pairs_map_at<K, V>(s: Seq<(K, V)>, i: int)
    requires
        firsts_distinct(s),
        0 <= i < s.len(),
    ensures
        pairs_map(s).contains_key(s[i].0),
        pairs_map(s)[s[i].0] == s[i].1,
{
    assert(has_first(s, s[i].0));
    let c = first_index(s, s[i].0);
    if c != i {
        if c < i {
            assert(s[c].0 != s[i].0);
        } else {
            assert(s[i].0 != s[c].0);
        }
    }
}

/// Replacing the value of the pair at `i` replaces the map's value of its key.
pub proof fn lemma_pairs_map_update<K, V>(s: Seq<(K, V)>, i: int, v: V)
    requires
        firsts_distinct(s),
        0 <= i < s.len(),
    ensures
        firsts_distinct(s.update(i, (s[i].0, v))),
        pairs_map(s.update(i, (s[i].0, v))) == pairs_map(s).insert(s[i].0, v),
{
    let t = s.update(i, (s[i].0, v));
    assert forall|a: int, b: int| 0 <= a < b < t.len() implies #[trigger] t[a].0 != #[trigger] t[b].0 by {
        assert(t[a].0 == s[a].0);
        assert(t[b].0 == s[b].0);
    }
    assert forall|k: K| has_first(t, k) <==> has_first(s, k) by {
        if has_first(t, k) {
            let j = first_index(t, k);
            assert(s[j].0 == k);
        }
        if has_first(s, k) {
            let j = first_index(s, k);
            assert(t[j].0 == k);
        }
    }
    assert forall|k: K| #[trigger] pairs_map(t).contains_key(k) implies pairs_map(t)[k] == pairs_map(
        s,
    ).insert(s[i].0, v)[k] by {
        let j = first_index(t, k);
        lemma_pairs_map_at(t, j);
        if j != i {
            lemma_pairs_map_at(s, j);
        }
    }
    assert(pairs_map(t) =~= pairs_map(s).insert(s[i].0, v));
}

/// Appending a pair with a new key adds that key to the map.
pub proof fn lemma_pairs_map_push<K, V>(s: Seq<(K, V)>, k: K, v: V)
    requires
        firsts_distinct(s),
        !has_first(s, k),
    ensures
        firsts_distinct(s.push((k, v))),
        pairs_map(s.push((k, v))) == pairs_map(s).insert(k, v),
{
    let t = s.push((k, v));
    assert forall|a: int, b: int| 0 <= a < b < t.len() implies #[trigger] t[a].0 != #[trigger] t[b].0 by {
        if b == s.len() {
            assert(t[a] == s[a]);
            if s[a].0 == k {
                assert(has_first(s, k));
            }
        } else {
            assert(t[a] == s[a]);
            assert(t[b] == s[b]);
        }
    }
    assert forall|x: K| has_first(t, x) <==> (has_first(s, x) || x == k) by {
        if has_first(t, x) {
            let j = first_index(t, x);
            if j < s.len() {
                assert(s[j].0 == x);
            }
        }
        if has_first(s, x) {
            let j = first_index(s, x);
            assert(t[j].0 == x);
        }
        if x == k {
            assert(t[s.len() as int].0 == x);
        }
    }
    assert forall|x: K| #[trigger] pairs_map(t).contains_key(x) implies pairs_map(t)[x] == pairs_map(
        s,
    ).insert(k, v)[x] by {
        let j = first_index(t, x);
        lemma_pairs_map_at(t, j);
        if j < s.len() {
            assert(t[j] == s[j]);
            lemma_pairs_map_at(s, j);
        }
    }
    assert(pairs_map(t) =~= pairs_map(s).insert(k, v));
}

/// A sequence of pairs without a given key gives a map without it.
pub proof fn lemma_pairs_map_missing<K, V>(s: Seq<(K, V)>, k: K)
    requires
        forall|j: int| 0 <= j < s.len() ==> #[trigger] s[j].0 != k,
    ensures
        !has_first(s, k),
        !pairs_map(s).contains_key(k),
{
}

/// Changing one element of a sum by a delta changes the sum by that delta.
pub proof fn lemma_seq_sum_update(s: Seq<nat>, i: int, v: nat)
    requires
        0 <= i < s.len(),
    ensures
        seq_sum(s.update(i, v)) + s[i] == seq_sum(s) + v,
    decreases s.len(),
{
    let t = s.update(i, v);
    if i == s.len() - 1 {
        assert(t.drop_last() =~= s.drop_last());
    } else {
        assert(t.drop_last() =~= s.drop_last().update(i, v));
        lemma_seq_sum_update(s.drop_last(), i, v);
    }
}

/// The sum of a sequence is at least each of its elements.
pub proof fn lemma_seq_sum_bound(s: Seq<nat>, i: int)
    requires
        0 <= i < s.len(),
    ensures
        s[i] <= seq_sum(s),
    decreases s.len(),
{
    if i < s.len() - 1 {
        lemma_seq_sum_bound(s.drop_last(), i);
    }
}

/// The sum of a concatenation is the sum of the sums.
pub proof fn lemma_seq_sum_concat(a: Seq<nat>, b: Seq<nat>)
    ensures
        seq_sum(a + b) == seq_sum(a) + seq_sum(b),
    decreases b.len(),
{
    if b.len() == 0 {
        assert(a + b =~= a);
    } else {
        assert((a + b).drop_last() =~= a + b.drop_last());
        lemma_seq_sum_concat(a, b.drop_last());
    }
}

/// A prefix sums to at most the whole, and one more element adds that element.
pub proof fn lemma_seq_sum_prefix(s: Seq<nat>, j: int)
    requires
        0 <= j <= s.len(),
    ensures
        seq_sum(s.take(j)) <= seq_sum(s),
        j < s.len() ==> seq_sum(s.take(j + 1)) == seq_sum(s.take(j)) + s[j],
{
    lemma_seq_sum_concat(s.take(j), s.skip(j));
    assert(s.take(j) + s.skip(j) =~= s);
    if j < s.len() {
        assert(s.take(j + 1).drop_last() =~= s.take(j));
    }
}

/// Keys that are distinct in a list are distinct in each of its prefixes, and
/// the prefix one longer adds one pair.
pub proof fn lemma_pairs_prefix<K, V>(s: Seq<(K, V)>, j: int)
    requires
        firsts_distinct(s),
        0 <= j < s.len(),
    ensures
        firsts_distinct(s.take(j)),
        !has_first(s.take(j), s[j].0),
        s.take(j + 1) == s.take(j).push(s[j]),
        pairs_map(s.take(j + 1)) == pairs_map(s.take(j)).insert(s[j].0, s[j].1),
{
    let t = s.take(j);
    assert forall|a: int, b: int| 0 <= a < b < t.len() implies #[trigger] t[a].0 != #[trigger] t[b].0 by {
        assert(t[a] == s[a]);
        assert(t[b] == s[b]);
    }
    if has_first(t, s[j].0) {
        let c = first_index(t, s[j].0);
        assert(t[c] == s[c]);
        assert(s[c].0 != s[j].0);
    }
    assert(s.take(j + 1) =~= t.push(s[j]));
    lemma_pairs_map_push(t, s[j].0, s[j].1);
}

} // verus!
