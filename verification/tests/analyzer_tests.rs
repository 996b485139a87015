use kafka_key_guestimator::analyzer::{schema_of, total_count, KeyCount, SchemaCounts, SchemaEntry};
use kafka_key_guestimator::attributes::Attributes;
use kafka_key_guestimator::partitioning::encode_key_values;

fn attrs(pairs: &[(&str, &str)]) -> Attributes {
    let mut a = Attributes::new();
    for (k, v) in pairs {
        a.insert(k.to_string(), v.to_string());
    }
    a
}

fn entry<'a>(snap: &'a [SchemaEntry], schema: &str) -> &'a SchemaEntry {
    snap.iter()
        .find(|e| e.schema == schema)
        .unwrap_or_else(|| panic!("no schema {schema}"))
}

fn contains_schema(snap: &[SchemaEntry], schema: &str) -> bool {
    snap.iter().any(|e| e.schema == schema)
}

fn count_of(snap: &[SchemaEntry], schema: &str, key: &[u8]) -> usize {
    entry(snap, schema)
        .keys
        .iter()
        .find(|k| k.key == key)
        .map(|k| k.count)
        .unwrap_or(0)
}

#[test]
fn new_is_empty() {
    assert!(SchemaCounts::new().snapshot().is_empty());
}

#[test]
fn add_creates_schema_entry() {
    let mut sc = SchemaCounts::new();
    sc.add(vec![attrs(&[("service.name", "gw")])]);
    let snap = sc.snapshot();
    assert!(contains_schema(&snap, "service.name"));
    assert_eq!(total_count(&entry(&snap, "service.name").keys), 1);
}

#[test]
fn same_key_increments_count() {
    let mut sc = SchemaCounts::new();
    let a = attrs(&[("svc", "gw")]);
    let b = attrs(&[("svc", "gw")]);
    sc.add(vec![a]);
    sc.add(vec![b]);
    assert_eq!(total_count(&entry(&sc.snapshot(), "svc").keys), 2);
}

#[test]
fn different_values_same_schema_are_distinct_keys() {
    let mut sc = SchemaCounts::new();
    sc.add(vec![attrs(&[("svc", "a")])]);
    sc.add(vec![attrs(&[("svc", "b")])]);
    let snap = sc.snapshot();
    assert_eq!(entry(&snap, "svc").keys.len(), 2);
    assert_eq!(total_count(&entry(&snap, "svc").keys), 2);
}

#[test]
fn different_attribute_sets_produce_different_schemas() {
    let mut sc = SchemaCounts::new();
    sc.add(vec![attrs(&[("a", "1")])]);
    sc.add(vec![attrs(&[("b", "2")])]);
    assert_eq!(sc.snapshot().len(), 2);
}

#[test]
fn schema_key_is_sorted_field_names() {
    let mut sc = SchemaCounts::new();
    sc.add(vec![attrs(&[("z", "1"), ("a", "2"), ("m", "3")])]);
    assert!(contains_schema(&sc.snapshot(), "a|m|z"));
}

#[test]
fn add_multiple_resources_per_call() {
    let mut sc = SchemaCounts::new();
    sc.add(vec![attrs(&[("svc", "a")]), attrs(&[("svc", "b")])]);
    assert_eq!(total_count(&entry(&sc.snapshot(), "svc").keys), 2);
}

#[test]
fn add_empty_resources_vec_is_noop() {
    let mut sc = SchemaCounts::new();
    sc.add(vec![]);
    assert!(sc.snapshot().is_empty());
}

#[test]
fn merge_all_empty_vec() {
    assert!(SchemaCounts::merge_all(vec![]).snapshot().is_empty());
}

#[test]
fn merge_all_combines_counts_for_same_key() {
    let mut sc1 = SchemaCounts::new();
    sc1.add(vec![attrs(&[("svc", "gw")])]);
    let mut sc2 = SchemaCounts::new();
    sc2.add(vec![attrs(&[("svc", "gw")])]);
    let merged = SchemaCounts::merge_all(vec![sc1, sc2]);
    assert_eq!(total_count(&entry(&merged.snapshot(), "svc").keys), 2);
}

#[test]
fn merge_all_combines_different_schemas() {
    let mut sc1 = SchemaCounts::new();
    sc1.add(vec![attrs(&[("a", "1")])]);
    let mut sc2 = SchemaCounts::new();
    sc2.add(vec![attrs(&[("b", "2")])]);
    assert_eq!(SchemaCounts::merge_all(vec![sc1, sc2]).snapshot().len(), 2);
}

#[test]
fn schema_of_joins_sorted_names_with_bars() {
    assert_eq!(schema_of(&attrs(&[("service.name", "gw"), ("host.name", "h")])), "host.name|service.name");
    assert_eq!(schema_of(&attrs(&[("only", "x")])), "only");
    assert_eq!(schema_of(&Attributes::new()), "");
}

#[test]
fn add_counts_each_resource_once_under_its_schema_and_key() {
    let mut sc = SchemaCounts::new();
    sc.add(vec![
        attrs(&[("svc", "a"), ("host", "h1")]),
        attrs(&[("svc", "a"), ("host", "h1")]),
        attrs(&[("svc", "b"), ("host", "h1")]),
        attrs(&[("svc", "a")]),
    ]);
    assert_eq!(sc.total(), 4);
    let snap = sc.snapshot();
    assert_eq!(snap.len(), 2);
    assert_eq!(count_of(&snap, "host|svc", br#"["h1","a"]"#), 2);
    assert_eq!(count_of(&snap, "host|svc", br#"["h1","b"]"#), 1);
    assert_eq!(count_of(&snap, "svc", br#"["a"]"#), 1);
}

#[test]
fn merge_all_sums_counts_and_totals() {
    let mut sc1 = SchemaCounts::new();
    sc1.add(vec![attrs(&[("svc", "a")]), attrs(&[("svc", "b")])]);
    let mut sc2 = SchemaCounts::new();
    sc2.add(vec![attrs(&[("svc", "a")]), attrs(&[("host", "h")])]);
    let mut sc3 = SchemaCounts::new();
    sc3.add(vec![attrs(&[("svc", "a")])]);
    let merged = SchemaCounts::merge_all(vec![sc1, sc2, sc3]);
    assert_eq!(merged.total(), 5);
    let snap = merged.snapshot();
    assert_eq!(count_of(&snap, "svc", br#"["a"]"#), 3);
    assert_eq!(count_of(&snap, "svc", br#"["b"]"#), 1);
    assert_eq!(count_of(&snap, "host", br#"["h"]"#), 1);
}

#[test]
fn record_raises_one_count_by_the_amount() {
    let mut sc = SchemaCounts::new();
    sc.record("svc".to_string(), b"k1".to_vec(), 5);
    sc.record("svc".to_string(), b"k1".to_vec(), 2);
    sc.record("svc".to_string(), b"k2".to_vec(), 1);
    sc.record("svc".to_string(), b"k3".to_vec(), 0);
    sc.record("other".to_string(), b"k1".to_vec(), 0);
    assert_eq!(sc.total(), 8);
    let snap = sc.snapshot();
    assert_eq!(snap.len(), 1);
    assert_eq!(entry(&snap, "svc").keys.len(), 2);
    assert_eq!(count_of(&snap, "svc", b"k1"), 7);
    assert_eq!(count_of(&snap, "svc", b"k2"), 1);
}

#[test]
fn total_count_sums_key_counts() {
    let keys = vec![
        KeyCount { key: b"a".to_vec(), count: 3 },
        KeyCount { key: b"b".to_vec(), count: 0 },
        KeyCount { key: b"c".to_vec(), count: 9 },
    ];
    assert_eq!(total_count(&keys), 12);
    assert_eq!(total_count(&vec![]), 0);
}

#[test]
fn key_of_resource_matches_encoded_values() {
    let a = attrs(&[("svc", "a"), ("host", "h1")]);
    let mut sc = SchemaCounts::new();
    let key = encode_key_values(&a);
    sc.add(vec![a]);
    let snap = sc.snapshot();
    assert_eq!(snap[0].keys[0].key, key);
}

#[test]
fn merge_all_equals_adding_everything_at_once() {
    let r1 = vec![attrs(&[("svc", "a")]), attrs(&[("svc", "b"), ("host", "h")])];
    let r2 = vec![attrs(&[("svc", "a")]), attrs(&[("zone", "z")])];
    let mut w1 = SchemaCounts::new();
    w1.add(r1);
    let mut w2 = SchemaCounts::new();
    w2.add(r2);
    let merged = SchemaCounts::merge_all(vec![w1, w2]).snapshot();
    let mut all = SchemaCounts::new();
    all.add(vec![
        attrs(&[("svc", "a")]),
        attrs(&[("svc", "b"), ("host", "h")]),
        attrs(&[("svc", "a")]),
        attrs(&[("zone", "z")]),
    ]);
    let once = all.snapshot();
    assert_eq!(merged.len(), once.len());
    for e in &once {
        for k in &e.keys {
            assert_eq!(count_of(&merged, &e.schema, &k.key), k.count);
            assert!(k.count >= 1);
        }
    }
}
