use kafka_key_guestimator::analyzer::{KeyCount, SchemaEntry};
use kafka_key_guestimator::reporter::{
    build_report, csv_file_name, csv_header, csv_records, csv_row, format_table, is_better, Report,
};

// Builds a minimal schema_counts: one schema "service.name" with one key ["gateway"] → 10 msgs.
fn one_schema() -> Vec<SchemaEntry> {
    vec![SchemaEntry {
        schema: "service.name".to_string(),
        keys: vec![KeyCount { key: br#"["gateway"]"#.to_vec(), count: 10 }],
    }]
}

fn std_dev(counts: &[usize]) -> f64 {
    let n = counts.len() as f64;
    let mean = counts.iter().sum::<usize>() as f64 / n;
    let variance = counts.iter().map(|&c| (c as f64 - mean).powi(2)).sum::<f64>() / n;
    variance.sqrt()
}

fn std_dev_texts(report: &Report) -> Vec<String> {
    report
        .candidates
        .iter()
        .map(|c| format!("{:.2}", std_dev(&c.partition_counts)))
        .collect()
}

fn table(report: &Report) -> String {
    format_table(report, &std_dev_texts(report))
}

#[test]
fn build_report_single_candidate() {
    let report = build_report(one_schema(), 10, 4);
    assert_eq!(report.candidates.len(), 1);
    assert_eq!(report.total_messages, 10);
    assert_eq!(report.candidates[0].message_count, 10);
    assert_eq!(report.recommended_index, 0);
}

#[test]
fn build_report_truncates_to_top_n() {
    let mut counts: Vec<SchemaEntry> = Vec::new();
    for i in 0..5usize {
        counts.push(SchemaEntry {
            schema: format!("schema{i}"),
            keys: vec![KeyCount { key: format!(r#"["v{i}"]"#).into_bytes(), count: 10 + i }],
        });
    }
    let report = build_report(counts, 3, 4);
    assert_eq!(report.candidates.len(), 3);
    // top 3 by count descending: 14, 13, 12
    assert_eq!(report.candidates[0].message_count, 14);
    assert_eq!(report.candidates[2].message_count, 12);
}

#[test]
fn build_report_recommended_index_in_bounds() {
    let report = build_report(one_schema(), 10, 4);
    assert!(report.recommended_index < report.candidates.len());
}

#[test]
fn build_report_total_messages_sums_all_schemas() {
    let mut counts = one_schema();
    counts.push(SchemaEntry {
        schema: "host.name".to_string(),
        keys: vec![KeyCount { key: br#"["other"]"#.to_vec(), count: 5 }],
    });
    let report = build_report(counts, 10, 4);
    assert_eq!(report.total_messages, 15);
}

#[test]
fn format_table_contains_recommendation_marker() {
    let report = build_report(one_schema(), 10, 4);
    let output = table(&report);
    assert!(output.contains('*'));
    assert!(output.contains("service.name"));
}

#[test]
fn format_table_starts_with_recommended_key_line() {
    let report = build_report(one_schema(), 10, 4);
    assert!(table(&report).starts_with("Recommended key:"));
}

#[test]
fn write_csv_creates_file_with_correct_headers() {
    let report = build_report(one_schema(), 10, 4);
    let header = csv_header(report.n_partitions).join(",");
    assert!(header.starts_with("rank,key_repr,message_count,std_dev,max_count,min_count"));
    assert_eq!(
        header,
        "rank,key_repr,message_count,std_dev,max_count,min_count,partition_0,partition_1,partition_2,partition_3,recommended"
    );
}

#[test]
fn write_csv_broker_tag_appears_in_filename() {
    let name = csv_file_name(Some("mybroker:9092"), "2024-01-02-03-04-05");
    assert!(name.contains("mybroker"));
    assert_eq!(name, "kafka-key-guestimator-mybroker-2024-01-02-03-04-05.csv");
}

#[test]
fn csv_file_name_without_broker() {
    assert_eq!(
        csv_file_name(None, "2024-01-02-03-04-05"),
        "kafka-key-guestimator-2024-01-02-03-04-05.csv"
    );
    assert_eq!(csv_file_name(Some("plainhost"), "t"), "kafka-key-guestimator-plainhost-t.csv");
}

#[test]
fn csv_row_fields_of_a_candidate() {
    let report = build_report(one_schema(), 10, 4);
    let c = &report.candidates[0];
    // ["gateway"] goes to partition 0 of 4
    let row = csv_row(c, true, 4, "4.330127");
    assert_eq!(
        row,
        vec!["1", "service.name", "10", "4.330127", "10", "0", "10", "0", "0", "0", "true"]
    );
    let row = csv_row(c, false, 6, "x");
    assert_eq!(row.len(), 13);
    assert_eq!(row[10], "0");
    assert_eq!(row[12], "false");
}

#[test]
fn build_report_ranks_by_count_and_recommends_least_spread() {
    // "skewed": one key with 12 messages, all in one partition.
    // "even": four keys, one per partition of 4, 3 messages each.
    let counts = vec![
        SchemaEntry {
            schema: "skewed".to_string(),
            keys: vec![KeyCount { key: b"a".to_vec(), count: 12 }],
        },
        SchemaEntry {
            schema: "even".to_string(),
            keys: vec![
                KeyCount { key: b"key_a".to_vec(), count: 3 },
                KeyCount { key: b"key_b".to_vec(), count: 3 },
                KeyCount { key: b"active".to_vec(), count: 3 },
                KeyCount { key: b"zero".to_vec(), count: 3 },
            ],
        },
    ];
    let report = build_report(counts, 10, 4);
    assert_eq!(report.candidates.len(), 2);
    assert_eq!(report.candidates[0].key_repr, "skewed");
    assert_eq!(report.candidates[0].rank, 1);
    assert_eq!(report.candidates[1].key_repr, "even");
    assert_eq!(report.candidates[1].rank, 2);
    assert_eq!(report.candidates[1].partition_counts, vec![3, 3, 3, 3]);
    assert_eq!(report.recommended_index, 1);
    assert!(is_better(&report.candidates[1], &report.candidates[0], 4));
    assert!(!is_better(&report.candidates[0], &report.candidates[1], 4));
}

#[test]
fn build_report_ties_keep_input_order() {
    let counts = vec![
        SchemaEntry { schema: "first".to_string(), keys: vec![KeyCount { key: b"a".to_vec(), count: 5 }] },
        SchemaEntry { schema: "second".to_string(), keys: vec![KeyCount { key: b"a".to_vec(), count: 5 }] },
    ];
    let report = build_report(counts, 10, 16);
    assert_eq!(report.candidates[0].key_repr, "first");
    assert_eq!(report.candidates[1].key_repr, "second");
    // equal spread and equal busiest partition: the first one stays recommended
    assert_eq!(report.recommended_index, 0);
}

#[test]
fn build_report_with_no_schemas() {
    let report = build_report(Vec::new(), 10, 4);
    assert!(report.candidates.is_empty());
    assert_eq!(report.total_messages, 0);
    assert_eq!(report.recommended_index, 0);
}

#[test]
fn format_table_exact_layout() {
    let report = build_report(one_schema(), 10, 4);
    let texts = vec!["4.33".to_string()];
    let out = format_table(&report, &texts);
    let expected = [
        "Recommended key: [1] service.name".to_string(),
        "  messages=10  std_dev=4.33  max=10  min=0".to_string(),
        String::new(),
        format!(
            "{:>4}  {:<40}  {:>7}  {:>8}  {:>7}  {:>7}  Rec",
            "Rank", "Key", "Count", "StdDev", "Max", "Min"
        ),
        "-".repeat(84),
        format!(
            "{:>4}  {:<40}  {:>7}  {:>8}  {:>7}  {:>7}  {}",
            1, "service.name", 10, "4.33", 10, 0, "*"
        ),
    ]
    .join("\n");
    assert_eq!(out, expected);
    assert_eq!(std_dev_texts(&report), texts);
}

#[test]
fn format_table_truncates_long_keys_to_forty_chars() {
    let long = "k".repeat(50);
    let counts = vec![SchemaEntry {
        schema: long.clone(),
        keys: vec![KeyCount { key: b"a".to_vec(), count: 1 }],
    }];
    let report = build_report(counts, 10, 2);
    let out = format_table(&report, &vec!["0.50".to_string()]);
    assert!(out.starts_with(&format!("Recommended key: [1] {long}")));
    let last = out.lines().last().unwrap();
    assert!(last.contains(&"k".repeat(40)));
    assert!(!last.contains(&"k".repeat(41)));
}

#[test]
fn build_report_keeps_the_busiest_schemas() {
    let sizes = [3usize, 9, 1, 9, 5];
    let counts: Vec<SchemaEntry> = sizes
        .iter()
        .enumerate()
        .map(|(i, &n)| SchemaEntry {
            schema: format!("s{i}"),
            keys: vec![KeyCount { key: format!("k{i}").into_bytes(), count: n }],
        })
        .collect();
    let report = build_report(counts, 2, 8);
    let names: Vec<&str> = report.candidates.iter().map(|c| c.key_repr.as_str()).collect();
    assert_eq!(names, vec!["s1", "s3"]);
    let least = report.candidates.iter().map(|c| c.message_count).min().unwrap();
    for (i, &n) in sizes.iter().enumerate() {
        if !names.contains(&format!("s{i}").as_str()) {
            assert!(n <= least);
        }
    }
    assert_eq!(report.total_messages, 27);
}

#[test]
fn csv_records_are_header_then_rows_in_order() {
    let counts = vec![
        SchemaEntry { schema: "skewed".to_string(), keys: vec![KeyCount { key: b"a".to_vec(), count: 12 }] },
        SchemaEntry {
            schema: "even".to_string(),
            keys: vec![
                KeyCount { key: b"key_a".to_vec(), count: 3 },
                KeyCount { key: b"key_b".to_vec(), count: 3 },
                KeyCount { key: b"active".to_vec(), count: 3 },
                KeyCount { key: b"zero".to_vec(), count: 3 },
            ],
        },
    ];
    let report = build_report(counts, 10, 4);
    let recs = csv_records(&report, &vec!["5.196152".to_string(), "0.000000".to_string()]);
    assert_eq!(recs.len(), 3);
    assert_eq!(recs[0], csv_header(4));
    assert_eq!(recs[1], vec!["1", "skewed", "12", "5.196152", "12", "0", "12", "0", "0", "0", "false"]);
    assert_eq!(recs[2], vec!["2", "even", "12", "0.000000", "3", "3", "3", "3", "3", "3", "true"]);
}
