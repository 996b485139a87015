use kafka_key_guestimator::analyzer::KeyCount;
use kafka_key_guestimator::attributes::Attributes;
use kafka_key_guestimator::partitioning::{
    encode_key_values, kafka_partition, murmur2, simulate_counted_distribution, Distribution,
};

fn kc(key: &[u8], count: usize) -> KeyCount {
    KeyCount { key: key.to_vec(), count }
}

/// `n²` times the variance of the partition counts, as the library's spread
/// stands for it: `q_minus_floor · n − deficit`.
fn scaled_variance(dist: &Distribution) -> i128 {
    let n = dist.partition_counts.len() as i128;
    dist.spread.q_minus_floor as i128 * n - dist.spread.deficit as i128
}

#[test]
fn murmur2_empty() {
    // Regression: empty slice must not panic
    let _ = murmur2(&[]);
}

#[test]
fn kafka_partition_stable() {
    let key = b"service.name=gateway|host.name=prod-1";
    let p = kafka_partition(key, 32);
    assert!(p < 32);
    assert_eq!(p, kafka_partition(key, 32)); // deterministic
}

#[test]
fn distribute_evenly() {
    let mut attrs = Attributes::new();
    attrs.insert("b".into(), "2".into());
    attrs.insert("a".into(), "1".into());
    let key = encode_key_values(&attrs);
    // sorted by key: a,b → values: ["1","2"]
    assert_eq!(key, br#"["1","2"]"#);
}

#[test]
fn encode_empty_attrs() {
    let attrs = Attributes::new();
    assert_eq!(encode_key_values(&attrs), b"[]");
}

#[test]
fn kafka_partition_range_check() {
    let inputs: &[&[u8]] = &[b"key1", b"key2", b"", b"a", b"\x00\xff"];
    for input in inputs {
        let p = kafka_partition(input, 16);
        assert!(p < 16, "partition {p} out of range for key {input:?}");
    }
}

#[test]
fn simulate_total_count_preserved() {
    let key_counts = vec![kc(b"key_a", 7), kc(b"key_b", 3)];
    let dist = simulate_counted_distribution(&key_counts, 4);
    assert_eq!(dist.partition_counts.iter().sum::<usize>(), 10);
}

#[test]
fn simulate_zero_count_entries_skipped() {
    let key_counts = vec![kc(b"active", 5), kc(b"zero", 0)];
    let dist = simulate_counted_distribution(&key_counts, 4);
    assert_eq!(dist.partition_counts.iter().sum::<usize>(), 5);
}

#[test]
fn simulate_partition_counts_length() {
    let key_counts = vec![kc(b"k", 1)];
    let dist = simulate_counted_distribution(&key_counts, 8);
    assert_eq!(dist.partition_counts.len(), 8);
}

#[test]
fn simulate_max_gte_min_and_nonneg_stddev() {
    let key_counts = vec![kc(b"a", 100), kc(b"b", 200)];
    let dist = simulate_counted_distribution(&key_counts, 16);
    assert!(dist.max_count >= dist.min_count);
    assert!(scaled_variance(&dist) >= 0);
}

#[test]
fn simulate_empty_counts() {
    let key_counts: Vec<KeyCount> = Vec::new();
    let dist = simulate_counted_distribution(&key_counts, 4);
    assert_eq!(scaled_variance(&dist), 0);
    assert_eq!(dist.max_count, 0);
    assert_eq!(dist.min_count, 0);
}

#[test]
fn murmur2_matches_kafka_reference_values() {
    assert_eq!(murmur2(b"21"), 3321034988);
    assert_eq!(murmur2(b"foobar"), 3504634814);
    assert_eq!(murmur2(b"a-little-bit-long-string"), 3308985760);
    assert_eq!(murmur2(b"a-little-bit-longer-string"), 2808662467);
    assert_eq!(murmur2(b"lkjh234lh9fiuh90y23oiuhsafujhadof229phr9h19h89h8"), 4236069325);
    assert_eq!(murmur2(b"abc"), 479470107);
    assert_eq!(murmur2(b""), 275646681);
}

#[test]
fn kafka_partition_exact_values() {
    assert_eq!(kafka_partition(b"service.name=gateway|host.name=prod-1", 32), 30);
    assert_eq!(kafka_partition(b"key1", 16), 4);
    assert_eq!(kafka_partition(b"key2", 16), 11);
    assert_eq!(kafka_partition(b"", 16), 9);
    assert_eq!(kafka_partition(b"a", 16), 12);
    assert_eq!(kafka_partition(b"\x00\xff", 16), 1);
    assert_eq!(kafka_partition(br#"["gateway"]"#, 4), 0);
    assert_eq!(kafka_partition(b"anything", 1), 0);
}

#[test]
fn simulate_places_each_key_in_its_partition() {
    // key_a -> 2, key_b -> 1, active -> 3, zero -> 0 (of 4)
    let key_counts = vec![kc(b"key_a", 7), kc(b"key_b", 3), kc(b"active", 5), kc(b"zero", 0)];
    let dist = simulate_counted_distribution(&key_counts, 4);
    assert_eq!(dist.partition_counts, vec![0, 3, 7, 5]);
    assert_eq!(dist.max_count, 7);
    assert_eq!(dist.min_count, 0);
}

#[test]
fn simulate_keys_in_one_partition_add_up() {
    // a -> 12 and b -> 4 of 16; a second "a" entry adds to the same partition
    let key_counts = vec![kc(b"a", 100), kc(b"b", 200), kc(b"a", 1)];
    let dist = simulate_counted_distribution(&key_counts, 16);
    assert_eq!(dist.partition_counts[12], 101);
    assert_eq!(dist.partition_counts[4], 200);
    assert_eq!(dist.partition_counts.iter().sum::<usize>(), 301);
    assert_eq!(dist.max_count, 200);
    assert_eq!(dist.min_count, 0);
}

#[test]
fn simulate_spread_is_scaled_variance() {
    // counts [0, 3, 7, 5]: n = 4, sum = 15, sum of squares = 83; n*Q - S^2 = 332 - 225 = 107
    let key_counts = vec![kc(b"key_a", 7), kc(b"key_b", 3), kc(b"active", 5)];
    let dist = simulate_counted_distribution(&key_counts, 4);
    let s = dist.spread;
    // the spread stands for q_minus_floor * n - deficit
    assert!(s.deficit < 4);
    let n: u128 = 4;
    let value = s.q_minus_floor as u128 * n - s.deficit as u128;
    assert_eq!(value, 107);
}

#[test]
fn encode_key_values_escapes_json() {
    let mut attrs = Attributes::new();
    attrs.insert("k".into(), "a\"b\\c".into());
    assert_eq!(encode_key_values(&attrs), br#"["a\"b\\c"]"#);
}

#[test]
fn encode_key_values_control_and_unicode() {
    let mut attrs = Attributes::new();
    attrs.insert("a".into(), "x\ty\u{1}".into());
    attrs.insert("b".into(), "é/\u{7f}".into());
    attrs.insert("c".into(), "\u{8}\u{c}\n\r".into());
    assert_eq!(
        encode_key_values(&attrs),
        "[\"x\\ty\\u0001\",\"é/\u{7f}\",\"\\b\\f\\n\\r\"]".as_bytes()
    );
}
