use lsm_tree::bloom::BloomFilter;

#[test]
fn test_insert_and_check() {
    let mut bf = BloomFilter::for_one_percent(100);
    bf.insert(b"hello");
    assert!(bf.might_contain(b"hello"));
}

#[test]
fn test_negative() {
    let mut bf = BloomFilter::for_one_percent(1000);
    bf.insert(b"exists");
    // Most non-existent keys should return false
    let mut false_positives = 0;
    for i in 0..1000 {
        if bf.might_contain(format!("nonexist_{}", i).as_bytes()) {
            false_positives += 1;
        }
    }
    // Should be well under 5%
    assert!(false_positives < 50, "Too many false positives: {}", false_positives);
}

#[test]
fn test_empty_filter() {
    let bf = BloomFilter::for_one_percent(100);
    assert!(!bf.might_contain(b"anything"));
}

#[test]
fn test_fp_rate() {
    let mut bf = BloomFilter::for_one_percent(1000);
    for i in 0..1000 {
        bf.insert(format!("key_{}", i).as_bytes());
    }
    let mut false_pos = 0;
    let test_count = 10000;
    for i in 0..test_count {
        if bf.might_contain(format!("nokey_{}", i).as_bytes()) {
            false_pos += 1;
        }
    }
    let rate = false_pos as f64 / test_count as f64;
    assert!(rate < 0.05, "FP rate too high: {}", rate);
}

#[test]
fn test_all_present() {
    let mut bf = BloomFilter::for_one_percent(100);
    for i in 0..100 {
        bf.insert(format!("k{}", i).as_bytes());
    }
    for i in 0..100 {
        assert!(bf.might_contain(format!("k{}", i).as_bytes()));
    }
}

#[test]
fn test_small_filter() {
    let mut bf = BloomFilter::with_params(64, 3);
    bf.insert(b"a");
    bf.insert(b"b");
    assert!(bf.might_contain(b"a"));
    assert!(bf.might_contain(b"b"));
    assert!(!bf.might_contain(b"c"));
}

/// The sizing for a one-in-a-hundred rate, computed in double precision as
/// `ceil(-(n * ln p) / ln(2)^2)` bits and `ceil(bits / n * ln 2)` hash
/// functions clamped to 1..=20.
fn float_sizing(n: usize) -> (usize, usize) {
    let p: f64 = 0.01;
    let m = (-((n as f64) * p.ln()) / (2.0_f64.ln().powi(2))).ceil() as usize;
    let k = ((m as f64 / n.max(1) as f64) * 2.0_f64.ln()).ceil() as usize;
    (m, k.clamp(1, 20))
}

#[test]
fn one_percent_sizing_matches_double_precision() {
    for n in 1..200_000usize {
        let bf = BloomFilter::for_one_percent(n);
        assert_eq!((bf.num_bits(), bf.num_hashes()), float_sizing(n), "n = {}", n);
    }
    for n in [1_000_000usize, 3_000_000, 10_000_000, 29_999_999] {
        let bf = BloomFilter::for_one_percent(n);
        assert_eq!((bf.num_bits(), bf.num_hashes()), float_sizing(n), "n = {}", n);
    }
}

#[test]
fn one_percent_sizing_exact_values() {
    let bf = BloomFilter::for_one_percent(100);
    assert_eq!(bf.num_bits(), 959);
    assert_eq!(bf.num_hashes(), 7);
    let bf = BloomFilter::for_one_percent(1000);
    assert_eq!(bf.num_bits(), 9586);
    let bf = BloomFilter::for_one_percent(1);
    assert_eq!(bf.num_bits(), 10);
    let bf = BloomFilter::for_one_percent(0);
    assert_eq!(bf.num_bits(), 0);
    assert_eq!(bf.num_hashes(), 1);
}

#[test]
fn with_params_reports_its_parameters() {
    let bf = BloomFilter::with_params(130, 4);
    assert_eq!(bf.num_bits(), 130);
    assert_eq!(bf.num_hashes(), 4);
}

#[test]
fn hash_positions_are_exact() {
    // In a 64-bit filter with two hash functions, "a" sets bits 12 and 45;
    // "probe445" picks the same two bits, "b" does not.
    let mut bf = BloomFilter::with_params(64, 2);
    bf.insert(b"a");
    assert!(bf.might_contain(b"probe445"));
    assert!(bf.might_contain(b"probe409"));
    assert!(!bf.might_contain(b"b"));
}

#[test]
fn inserted_keys_stay_present() {
    let mut bf = BloomFilter::with_params(16, 5);
    let keys: Vec<Vec<u8>> = (0..50).map(|i| format!("x{}", i).into_bytes()).collect();
    for (n, k) in keys.iter().enumerate() {
        bf.insert(k);
        for earlier in &keys[..=n] {
            assert!(bf.might_contain(earlier));
        }
    }
}

#[test]
fn no_hash_functions_means_always_maybe() {
    let bf = BloomFilter::with_params(0, 0);
    assert!(bf.might_contain(b"whatever"));
}
