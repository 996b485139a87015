use kafka_key_guestimator::analyzer::schema_of;
use kafka_key_guestimator::attributes::Attributes;
use kafka_key_guestimator::partitioning::encode_key_values;

#[test]
fn insert_then_get_reads_the_value() {
    let mut a = Attributes::new();
    assert!(a.is_empty());
    a.insert("svc".to_string(), "gw".to_string());
    a.insert("host".to_string(), "h1".to_string());
    assert_eq!(a.get("svc").map(|s| s.as_str()), Some("gw"));
    assert_eq!(a.get("host").map(|s| s.as_str()), Some("h1"));
    assert_eq!(a.get("zone"), None);
    assert_eq!(a.len(), 2);
}

#[test]
fn insert_replaces_an_earlier_value() {
    let mut a = Attributes::new();
    a.insert("svc".to_string(), "old".to_string());
    a.insert("svc".to_string(), "new".to_string());
    assert_eq!(a.len(), 1);
    assert_eq!(a.get("svc").map(|s| s.as_str()), Some("new"));
}

#[test]
fn pairs_come_in_key_order() {
    let mut a = Attributes::new();
    for k in ["m", "z", "a", "é", "B"] {
        a.insert(k.to_string(), k.to_uppercase());
    }
    let keys: Vec<&str> = a.pairs().iter().map(|(k, _)| k.as_str()).collect();
    assert_eq!(keys, vec!["B", "a", "m", "z", "é"]);
}

#[test]
fn insertion_order_does_not_matter() {
    let mut a = Attributes::new();
    a.insert("service.name".to_string(), "gw".to_string());
    a.insert("host.name".to_string(), "h1".to_string());
    a.insert("zone".to_string(), "eu".to_string());
    let mut b = Attributes::new();
    b.insert("zone".to_string(), "eu".to_string());
    b.insert("host.name".to_string(), "old".to_string());
    b.insert("service.name".to_string(), "gw".to_string());
    b.insert("host.name".to_string(), "h1".to_string());
    assert_eq!(a.pairs(), b.pairs());
    assert_eq!(schema_of(&a), schema_of(&b));
    assert_eq!(encode_key_values(&a), encode_key_values(&b));
    assert_eq!(encode_key_values(&a), br#"["h1","gw","eu"]"#);
}
