//! The attribute set of one OTLP resource: a map from attribute name to
//! attribute text, kept in the order of its keys.

use vstd::prelude::*;

use crate::order::{lemma_text_lt_order, text_less, text_lt};

verus! {

/// An attribute list as a sequence of (key, value) pairs.
pub type AttrSeq = Seq<(Seq<char>, Seq<char>)>;

/// Keys strictly increase along the sequence; in particular no key occurs twice.
pub open spec fn keys_ascending(s: AttrSeq) -> bool {
    forall|i: int, j: int| 0 <= i < j < s.len() ==> text_lt(#[trigger] s[i].0, #[trigger] s[j].0)
}

/// `s` with `key` set to `value`: the pair is replaced where the key is
/// present and inserted in key order where it is not.
pub open spec fn upsert(s: AttrSeq, key: Seq<char>, value: Seq<char>) -> AttrSeq
    decreases s.len(),
{
    if s.len() == 0 {
        seq![(key, value)]
    } else if s[0].0 == key {
        seq![(key, value)] + s.drop_first()
    } else if text_lt(key, s[0].0) {
        seq![(key, value)] + s
    } else {
        seq![s[0]] + upsert(s.drop_first(), key, value)
    }
}

/// `k` is the key of some pair of `s`.
pub open spec fn has_key(s: AttrSeq, k: Seq<char>) -> bool {
    exists|i: int| 0 <= i < s.len() && s[i].0 == k
}

/// An index at which `k` is the key, where there is one.
pub open spec fn key_index(s: AttrSeq, k: Seq<char>) -> int {
    choose|i: int| 0 <= i < s.len() && s[i].0 == k
}

/// `s` read as a map from key to value.
pub open spec fn attr_map(s: AttrSeq) -> Map<Seq<char>, Seq<char>> {
    Map::new(|k: Seq<char>| has_key(s, k), |k: Seq<char>| s[key_index(s, k)].1)
}

/// The attributes of one resource. Setting a key that is already present
/// replaces its value, as for a map; the pairs are kept sorted by key in the
/// order Rust gives `str`.
pub struct Attributes {
    entries: Vec<(String, String)>,
}

impl View for Attributes {
    type V = AttrSeq;

    closed spec fn view(&self) -> AttrSeq {
        self.entries@.map_values(|p: (String, String)| (p.0@, p.1@))
    }
}

impl Attributes {
    #[verifier::type_invariant]
    spec fn inv(self) -> bool {
        keys_ascending(self@)
    }

    /// An empty attribute set.
    pub fn new() -> (r: Self)
        ensures
            r@ == Seq::<(Seq<char>, Seq<char>)>::empty(),
    {
        let r = Attributes { entries: Vec::new() };
        assert(r@ =~= Seq::<(Seq<char>, Seq<char>)>::empty());
        r
    }

    /// The pairs in key order.
    pub fn pairs(&self) -> (r: &Vec<(String, String)>)
        ensures
            r@.map_values(|p: (String, String)| (p.0@, p.1@)) == self@,
            keys_ascending(self@),
    {
        proof {
            use_type_invariant(self);
        }
        &self.entries
    }

    /// The number of attributes.
    pub fn len(&self) -> (n: usize)
        ensures
            n == self@.len(),
    {
        self.entries.len()
    }

    /// Whether there are no attributes.
    pub fn is_empty(&self) -> (b: bool)
        ensures
            b == (self@.len() == 0),
    {
        self.entries.len() == 0
    }

    /// Sets `key` to `value`, replacing an earlier value of the same key.
    pub fn insert(&mut self, key: String, value: String)
        ensures
            final(self)@ == upsert(old(self)@, key@, value@),
            keys_ascending(final(self)@),
            attr_map(final(self)@) == attr_map(old(self)@).insert(key@, value@),
    {
        proof {
            use_type_invariant(&*self);
        }
        let ghost s = self@;
        let mut entries: Vec<(String, String)> = Vec::new();
        std::mem::swap(&mut entries, &mut self.entries);
        assert(entries@.map_values(|p: (String, String)| (p.0@, p.1@)) == s);
        let mut i: usize = 0;
        while i < entries.len() && text_less(entries[i].0.as_str(), key.as_str())
            invariant
                i <= entries@.len(),
                entries@.map_values(|p: (String, String)| (p.0@, p.1@)) == s,
                keys_ascending(s),
                forall|j: int| 0 <= j < i ==> text_lt(#[trigger] s[j].0, key@),
            decreases entries@.len() - i,
        {
            i = i + 1;
        }
        let ghost k = key@;
        let ghost v = value@;
        proof {
            lemma_upsert_split(s, k, v, i as int);
        }
        if i < entries.len() && entries[i].0 == key {
            entries.set(i, (key, value));
            assert(entries@.map_values(|p: (String, String)| (p.0@, p.1@)) =~= s.take(i as int)
                + seq![(k, v)] + s.skip(i + 1));
        } else {
            entries.insert(i, (key, value));
            assert(entries@.map_values(|p: (String, String)| (p.0@, p.1@)) =~= s.take(i as int)
                + seq![(k, v)] + s.skip(i as int));
        }
        proof {
            lemma_upsert_ascending(s, k, v);
            lemma_upsert_map(s, k, v);
        }
        self.entries = entries;
    }

    /// The value of `key`, if present.
    pub fn get(&self, key: &str) -> (r: Option<&String>)
        ensures
            r is Some <==> attr_map(self@).contains_key(key@),
            r matches Some(v) ==> v@ == attr_map(self@)[key@],
    {
        proof {
            use_type_invariant(self);
        }
        let mut i: usize = 0;
        while i < self.entries.len()
            invariant
                i <= self@.len(),
                self.entries@.len() == self@.len(),
                keys_ascending(self@),
                forall|j: int| 0 <= j < i ==> self@[j].0 != key@,
            decreases self@.len() - i,
        {
            let here = self.entries[i].0.as_str();
            proof {
                lemma_text_lt_order(self@[i as int].0, key@, key@);
            }
            if !text_less(here, key) && !text_less(key, here) {
                proof {
                    lemma_attr_map_at(self@, i as int);
                }
                return Some(&self.entries[i].1);
            }
            i = i + 1;
        }
        assert(!has_key(self@, key@));
        None
    }
}

/// In a sequence with distinct keys, the map holds each pair.
pub proof fn lemma_attr_map_at(s: AttrSeq, i: int)
    requires
        keys_ascending(s),
        0 <= i < s.len(),
    ensures
        attr_map(s).contains_key(s[i].0),
        attr_map(s)[s[i].0] == s[i].1,
{
    let k = s[i].0;
    assert(has_key(s, k));
    let c = key_index(s, k);
    if c != i {
        lemma_text_lt_order(s[c].0, s[i].0, s[i].0);
        if c < i {
            assert(text_lt(s[c].0, s[i].0));
        } else {
            assert(text_lt(s[i].0, s[c].0));
        }
    }
}

/// Where the search for `key` stops at `i`, setting the key replaces the pair
/// at `i` or inserts before it.
pub proof fn lemma_upsert_split(s: AttrSeq, key: Seq<char>, value: Seq<char>, i: int)
    requires
        keys_ascending(s),
        0 <= i <= s.len(),
        forall|j: int| 0 <= j < i ==> text_lt(#[trigger] s[j].0, key),
        i < s.len() ==> !text_lt(s[i].0, key),
    ensures
        i < s.len() && s[i].0 == key ==> upsert(s, key, value) == s.take(i) + seq![(key, value)]
            + s.skip(i + 1),
        !(i < s.len() && s[i].0 == key) ==> upsert(s, key, value) == s.take(i) + seq![(key, value)]
            + s.skip(i),
    decreases i,
{
    if i == 0 {
        if s.len() > 0 {
            lemma_text_lt_order(key, s[0].0, key);
            assert(s.skip(1) =~= s.drop_first());
            assert(s.skip(0) =~= s);
        }
        assert(s.take(0) + seq![(key, value)] + s.skip(0) =~= seq![(key, value)] + s);
    } else {
        let t = s.drop_first();
        lemma_text_lt_order(s[0].0, key, key);
        assert(s[0].0 != key);
        assert(!text_lt(key, s[0].0));
        assert forall|a: int, b: int| 0 <= a < b < t.len() implies text_lt(
            #[trigger] t[a].0,
            #[trigger] t[b].0,
        ) by {
            assert(t[a] == s[a + 1]);
            assert(t[b] == s[b + 1]);
        }
        assert forall|j: int| 0 <= j < i - 1 implies text_lt(#[trigger] t[j].0, key) by {
            assert(t[j] == s[j + 1]);
        }
        lemma_upsert_split(t, key, value, i - 1);
        assert(s.take(i) =~= seq![s[0]] + t.take(i - 1));
        assert(s.skip(i) =~= t.skip(i - 1));
        if i < s.len() {
            assert(s.skip(i + 1) =~= t.skip(i));
        }
    }
}

/// Setting a key keeps the keys ascending.
pub proof fn lemma_upsert_ascending(s: AttrSeq, key: Seq<char>, value: Seq<char>)
    requires
        keys_ascending(s),
    ensures
        keys_ascending(upsert(s, key, value)),
        forall|x: Seq<char>| #[trigger] has_key(upsert(s, key, value), x) ==> (x == key || has_key(s, x)),
    decreases s.len(),
{
    let r = upsert(s, key, value);
    if s.len() == 0 {
    } else if s[0].0 == key {
        assert forall|a: int, b: int| 0 <= a < b < r.len() implies text_lt(
            #[trigger] r[a].0,
            #[trigger] r[b].0,
        ) by {
            assert(r[b] == s[b]);
            if a > 0 {
                assert(r[a] == s[a]);
            }
        }
        assert forall|x: Seq<char>| #[trigger] has_key(r, x) implies (x == key || has_key(s, x)) by {
            let i = choose|i: int| 0 <= i < r.len() && r[i].0 == x;
            if i > 0 {
                assert(r[i] == s[i]);
            }
        }
    } else if text_lt(key, s[0].0) {
        assert forall|a: int, b: int| 0 <= a < b < r.len() implies text_lt(
            #[trigger] r[a].0,
            #[trigger] r[b].0,
        ) by {
            assert(r[b] == s[b - 1]);
            if a > 0 {
                assert(r[a] == s[a - 1]);
            } else if b > 1 {
                lemma_text_lt_order(key, s[0].0, s[b - 1].0);
            }
        }
        assert forall|x: Seq<char>| #[trigger] has_key(r, x) implies (x == key || has_key(s, x)) by {
            let i = choose|i: int| 0 <= i < r.len() && r[i].0 == x;
            if i > 0 {
                assert(r[i] == s[i - 1]);
            }
        }
    } else {
        let t = s.drop_first();
        assert forall|a: int, b: int| 0 <= a < b < t.len() implies text_lt(
            #[trigger] t[a].0,
            #[trigger] t[b].0,
        ) by {
            assert(t[a] == s[a + 1]);
            assert(t[b] == s[b + 1]);
        }
        lemma_upsert_ascending(t, key, value);
        let u = upsert(t, key, value);
        lemma_text_lt_order(s[0].0, key, key);
        assert forall|a: int, b: int| 0 <= a < b < r.len() implies text_lt(
            #[trigger] r[a].0,
            #[trigger] r[b].0,
        ) by {
            assert(r[b] == u[b - 1]);
            if a > 0 {
                assert(r[a] == u[a - 1]);
            } else {
                let x = u[b - 1].0;
                assert(has_key(u, x));
                if x != key {
                    let j = choose|j: int| 0 <= j < t.len() && t[j].0 == x;
                    assert(t[j] == s[j + 1]);
                }
            }
        }
        assert forall|x: Seq<char>| #[trigger] has_key(r, x) implies (x == key || has_key(s, x)) by {
            let i = choose|i: int| 0 <= i < r.len() && r[i].0 == x;
            if i > 0 {
                assert(r[i] == u[i - 1]);
                assert(has_key(u, x));
                if x != key {
                    let j = choose|j: int| 0 <= j < t.len() && t[j].0 == x;
                    assert(t[j] == s[j + 1]);
                }
            }
        }
    }
}

/// The pair `p` occurs somewhere in `s`.
pub open spec fn has_pair(s: AttrSeq, p: (Seq<char>, Seq<char>)) -> bool {
    exists|i: int| 0 <= i < s.len() && s[i] == p
}

/// Setting a key keeps every pair of another key and holds the new pair.
proof fn lemma_upsert_pairs(s: AttrSeq, key: Seq<char>, value: Seq<char>)
    requires
        keys_ascending(s),
    ensures
        has_pair(upsert(s, key, value), (key, value)),
        forall|j: int|
            0 <= j < s.len() && s[j].0 != key ==> #[trigger] has_pair(upsert(s, key, value), s[j]),
    decreases s.len(),
{
    let r = upsert(s, key, value);
    if s.len() == 0 {
        assert(r[0] == (key, value));
    } else if s[0].0 == key {
        assert(r[0] == (key, value));
        assert forall|j: int| 0 <= j < s.len() && s[j].0 != key implies #[trigger] has_pair(r, s[j]) by {
            assert(r[j] == s[j]);
        }
    } else if text_lt(key, s[0].0) {
        assert(r[0] == (key, value));
        assert forall|j: int| 0 <= j < s.len() && s[j].0 != key implies #[trigger] has_pair(r, s[j]) by {
            assert(r[j + 1] == s[j]);
        }
    } else {
        let t = s.drop_first();
        assert forall|a: int, b: int| 0 <= a < b < t.len() implies text_lt(
            #[trigger] t[a].0,
            #[trigger] t[b].0,
        ) by {
            assert(t[a] == s[a + 1]);
            assert(t[b] == s[b + 1]);
        }
        lemma_upsert_pairs(t, key, value);
        let u = upsert(t, key, value);
        let i = choose|i: int| 0 <= i < u.len() && u[i] == (key, value);
        assert(r[i + 1] == u[i]);
        assert forall|j: int| 0 <= j < s.len() && s[j].0 != key implies #[trigger] has_pair(r, s[j]) by {
            if j == 0 {
                assert(r[0] == s[0]);
            } else {
                assert(t[j - 1] == s[j]);
                assert(has_pair(u, t[j - 1]));
                let m = choose|m: int| 0 <= m < u.len() && u[m] == t[j - 1];
                assert(r[m + 1] == u[m]);
            }
        }
    }
}

/// An attribute set behaves as a map: setting `key` to `value` is the map
/// insertion, whatever was there before.
pub proof fn lemma_upsert_map(s: AttrSeq, key: Seq<char>, value: Seq<char>)
    requires
        keys_ascending(s),
    ensures
        attr_map(upsert(s, key, value)) == attr_map(s).insert(key, value),
{
    let r = upsert(s, key, value);
    lemma_upsert_ascending(s, key, value);
    lemma_upsert_pairs(s, key, value);
    let i = choose|i: int| 0 <= i < r.len() && r[i] == (key, value);
    lemma_attr_map_at(r, i);
    assert forall|x: Seq<char>| #[trigger] attr_map(r).contains_key(x) <==> attr_map(s).insert(
        key,
        value,
    ).contains_key(x) by {
        if x != key && has_key(s, x) {
            let j = choose|j: int| 0 <= j < s.len() && s[j].0 == x;
            assert(has_pair(r, s[j]));
            let m = choose|m: int| 0 <= m < r.len() && r[m] == s[j];
            assert(r[m].0 == x);
        }
    }
    assert forall|x: Seq<char>| #[trigger] attr_map(r).contains_key(x) implies attr_map(r)[x]
        == attr_map(s).insert(key, value)[x] by {
        if x != key {
            assert(has_key(s, x));
            let j = choose|j: int| 0 <= j < s.len() && s[j].0 == x;
            lemma_attr_map_at(s, j);
            assert(has_pair(r, s[j]));
            let m = choose|m: int| 0 <= m < r.len() && r[m] == s[j];
            lemma_attr_map_at(r, m);
        }
    }
    assert(attr_map(r) =~= attr_map(s).insert(key, value));
}

/// Dropping the first pair of an ascending list removes the smallest key.
proof fn lemma_attr_map_drop_first(s: AttrSeq)
    requires
        keys_ascending(s),
        s.len() > 0,
    ensures
        keys_ascending(s.drop_first()),
        attr_map(s.drop_first()) == attr_map(s).remove(s[0].0),
{
    let t = s.drop_first();
    assert forall|a: int, b: int| 0 <= a < b < t.len() implies text_lt(
        #[trigger] t[a].0,
        #[trigger] t[b].0,
    ) by {
        assert(t[a] == s[a + 1]);
        assert(t[b] == s[b + 1]);
    }
    assert forall|x: Seq<char>| #[trigger] attr_map(t).contains_key(x) <==> attr_map(s).remove(
        s[0].0,
    ).contains_key(x) by {
        if has_key(t, x) {
            let j = choose|j: int| 0 <= j < t.len() && t[j].0 == x;
            assert(s[j + 1] == t[j]);
            assert(text_lt(s[0].0, s[j + 1].0));
            lemma_text_lt_order(s[0].0, x, x);
        }
        if has_key(s, x) && x != s[0].0 {
            let i = choose|i: int| 0 <= i < s.len() && s[i].0 == x;
            assert(t[i - 1] == s[i]);
        }
    }
    assert forall|x: Seq<char>| #[trigger] attr_map(t).contains_key(x) implies attr_map(t)[x]
        == attr_map(s).remove(s[0].0)[x] by {
        let j = choose|j: int| 0 <= j < t.len() && t[j].0 == x;
        assert(s[j + 1] == t[j]);
        lemma_attr_map_at(t, j);
        lemma_attr_map_at(s, j + 1);
    }
    assert(attr_map(t) =~= attr_map(s).remove(s[0].0));
}

/// An attribute set has one form only: two ascending lists that hold the
/// same map are the same list. So the schema and the key of a resource
/// depend on its attributes alone, not on the order in which they were set.
pub proof fn lemma_attributes_canonical(s: AttrSeq, t: AttrSeq)
    requires
        keys_ascending(s),
        keys_ascending(t),
        attr_map(s) == attr_map(t),
    ensures
        s == t,
    decreases s.len(),
{
    if s.len() == 0 {
        if t.len() > 0 {
            assert(has_key(t, t[0].0));
            assert(attr_map(t).contains_key(t[0].0));
        }
        assert(s =~= t);
    } else {
        assert(has_key(s, s[0].0));
        assert(attr_map(t).contains_key(s[0].0));
        let j = choose|j: int| 0 <= j < t.len() && t[j].0 == s[0].0;
        if j > 0 {
            assert(text_lt(t[0].0, t[j].0));
            assert(has_key(t, t[0].0));
            assert(attr_map(s).contains_key(t[0].0));
            let i = choose|i: int| 0 <= i < s.len() && s[i].0 == t[0].0;
            lemma_text_lt_order(t[0].0, s[0].0, t[0].0);
            if i > 0 {
                assert(text_lt(s[0].0, s[i].0));
            }
        }
        assert(j == 0);
        lemma_attr_map_at(s, 0);
        lemma_attr_map_at(t, 0);
        assert(s[0] == t[0]);
        lemma_attr_map_drop_first(s);
        lemma_attr_map_drop_first(t);
        lemma_attributes_canonical(s.drop_first(), t.drop_first());
        assert(s =~= seq![s[0]] + s.drop_first());
        assert(t =~= seq![t[0]] + t.drop_first());
    }
}

} // verus!
