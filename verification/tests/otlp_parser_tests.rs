use kafka_key_guestimator::attributes::Attributes;
use kafka_key_guestimator::otlp_parser::{
    any_value_to_string, parse_resource_attrs, resources_to_attributes, AttrValue, RawKeyValue,
    RawResourceMetrics,
};

fn value<'a>(a: &'a Attributes, key: &str) -> &'a str {
    a.get(key).unwrap_or_else(|| panic!("no attribute {key}")).as_str()
}

#[test]
fn empty_line_returns_empty() {
    assert!(parse_resource_attrs("").is_empty());
}

#[test]
fn malformed_json_returns_empty() {
    assert!(parse_resource_attrs("{not json}").is_empty());
}

#[test]
fn empty_object_no_resource_metrics() {
    assert_eq!(parse_resource_attrs("{}").len(), 0);
}

#[test]
fn parses_string_value() {
    let json = r#"{"resourceMetrics":[{"resource":{"attributes":[{"key":"service.name","value":{"stringValue":"gateway"}}]}}]}"#;
    let result = parse_resource_attrs(json);
    assert_eq!(result.len(), 1);
    assert_eq!(value(&result[0], "service.name"), "gateway");
}

#[test]
fn parses_bool_value() {
    let json = r#"{"resourceMetrics":[{"resource":{"attributes":[{"key":"enabled","value":{"boolValue":true}}]}}]}"#;
    let result = parse_resource_attrs(json);
    assert_eq!(value(&result[0], "enabled"), "true");
}

#[test]
fn parses_int_value_as_quoted_string() {
    // protobuf JSON encodes int64 as a JSON string
    let json = r#"{"resourceMetrics":[{"resource":{"attributes":[{"key":"port","value":{"intValue":"8080"}}]}}]}"#;
    let result = parse_resource_attrs(json);
    assert_eq!(value(&result[0], "port"), "8080");
}

#[test]
fn parses_int_value_as_number() {
    let json = r#"{"resourceMetrics":[{"resource":{"attributes":[{"key":"port","value":{"intValue":8080}}]}}]}"#;
    let result = parse_resource_attrs(json);
    assert_eq!(value(&result[0], "port"), "8080");
}

#[test]
fn parses_double_value() {
    let json = r#"{"resourceMetrics":[{"resource":{"attributes":[{"key":"ratio","value":{"doubleValue":1.5}}]}}]}"#;
    let result = parse_resource_attrs(json);
    assert_eq!(value(&result[0], "ratio"), "1.5");
}

#[test]
fn multiple_resource_metrics_yields_multiple_maps() {
    let json = r#"{"resourceMetrics":[
        {"resource":{"attributes":[{"key":"a","value":{"stringValue":"1"}}]}},
        {"resource":{"attributes":[{"key":"b","value":{"stringValue":"2"}}]}}
    ]}"#;
    let result = parse_resource_attrs(json);
    assert_eq!(result.len(), 2);
    assert_eq!(value(&result[0], "a"), "1");
    assert_eq!(value(&result[1], "b"), "2");
}

#[test]
fn unknown_value_type_filtered_out_leaving_empty_map() {
    let json = r#"{"resourceMetrics":[{"resource":{"attributes":[{"key":"arr","value":{"arrayValue":{"values":[]}}}]}}]}"#;
    let result = parse_resource_attrs(json);
    assert_eq!(result.len(), 1);
    assert!(result[0].is_empty());
}

#[test]
fn missing_resource_key_uses_default_empty() {
    let json = r#"{"resourceMetrics":[{}]}"#;
    let result = parse_resource_attrs(json);
    assert_eq!(result.len(), 1);
    assert!(result[0].is_empty());
}

#[test]
fn multiple_attributes_in_one_resource() {
    let json = r#"{"resourceMetrics":[{"resource":{"attributes":[
        {"key":"svc","value":{"stringValue":"api"}},
        {"key":"host","value":{"stringValue":"prod-1"}}
    ]}}]}"#;
    let result = parse_resource_attrs(json);
    assert_eq!(result[0].len(), 2);
    assert_eq!(value(&result[0], "svc"), "api");
    assert_eq!(value(&result[0], "host"), "prod-1");
}

#[test]
fn later_attribute_with_same_key_wins() {
    let json = r#"{"resourceMetrics":[{"resource":{"attributes":[
        {"key":"svc","value":{"stringValue":"first"}},
        {"key":"svc","value":{"stringValue":"second"}}
    ]}}]}"#;
    let result = parse_resource_attrs(json);
    assert_eq!(result[0].len(), 1);
    assert_eq!(value(&result[0], "svc"), "second");
}

#[test]
fn any_value_to_string_texts() {
    assert_eq!(any_value_to_string(&AttrValue::Str("x".to_string())), Some("x".to_string()));
    assert_eq!(any_value_to_string(&AttrValue::Bool(false)), Some("false".to_string()));
    assert_eq!(any_value_to_string(&AttrValue::Int(-42)), Some("-42".to_string()));
    assert_eq!(any_value_to_string(&AttrValue::Int(i64::MIN)), Some("-9223372036854775808".to_string()));
    assert_eq!(any_value_to_string(&AttrValue::Int(0)), Some("0".to_string()));
    assert_eq!(any_value_to_string(&AttrValue::Double("2.25".to_string())), Some("2.25".to_string()));
    assert_eq!(any_value_to_string(&AttrValue::Other), None);
}

#[test]
fn resources_to_attributes_keeps_texted_values() {
    let rms = vec![
        RawResourceMetrics {
            resource: Some(vec![
                RawKeyValue { key: "b".to_string(), value: Some(Some(AttrValue::Int(7))) },
                RawKeyValue { key: "a".to_string(), value: Some(None) },
                RawKeyValue { key: "c".to_string(), value: None },
                RawKeyValue { key: "d".to_string(), value: Some(Some(AttrValue::Other)) },
                RawKeyValue { key: "a".to_string(), value: Some(Some(AttrValue::Bool(true))) },
            ]),
        },
        RawResourceMetrics { resource: None },
    ];
    let out = resources_to_attributes(&rms);
    assert_eq!(out.len(), 2);
    assert_eq!(
        out[0].pairs(),
        &vec![("a".to_string(), "true".to_string()), ("b".to_string(), "7".to_string())]
    );
    assert!(out[1].is_empty());
}
