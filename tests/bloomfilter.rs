use lock_free_bloomfilter::bloomfilter::BloomFilter;

#[test]
fn test_set() {
    // the sizes that 100 expected insertions at a 1% false-positive rate give
    let mut f1 = BloomFilter::with_size(958, 7);
    assert!(f1.set("Has".as_bytes()));
    assert!(f1.might_contain("Has".as_bytes()));
    assert!(!f1.set("Has".as_bytes()));
}

#[test]
fn empty_filter_contains_nothing() {
    let f = BloomFilter::with_size(1000, 3);
    assert!(!f.might_contain(b"anything"));
    assert!(!f.might_contain(b""));
    assert!(!f.might_contain_hashed(0, 0));
}

#[test]
fn set_items_are_always_found() {
    let mut f = BloomFilter::with_size(9585, 7);
    let items: Vec<String> = (0..1000).map(|n| n.to_string()).collect();
    for item in items.iter() {
        f.set(item.as_bytes());
    }
    for item in items.iter() {
        assert!(f.might_contain(item.as_bytes()));
        assert!(!f.set(item.as_bytes()));
    }
}

#[test]
fn false_positive_rate_stays_near_target() {
    let mut f = BloomFilter::with_size(9585, 7);
    for n in 0..1000 {
        f.set(n.to_string().as_bytes());
    }
    let queries = 20000;
    let positives = (1000..1000 + queries)
        .filter(|n| f.might_contain(n.to_string().as_bytes()))
        .count();
    let rate = positives as f64 / queries as f64;
    assert!(rate < 0.03, "observed rate {}", rate);
}

#[test]
fn distinct_items_are_told_apart() {
    let mut f = BloomFilter::with_size(100_000, 4);
    assert!(f.set(b"a"));
    assert!(f.might_contain(b"a"));
    assert!(!f.might_contain(b"b"));
    assert!(!f.might_contain(b"ab"));
}

#[test]
fn probe_positions_follow_double_hashing() {
    // probes 5, 7 and 5 + 2 * 7 = 19; hashes 69 and 71 give the same positions
    let mut f = BloomFilter::with_size(64, 3);
    assert!(f.set_hashed(5, 7));
    assert!(f.might_contain_hashed(5, 7));
    assert!(f.might_contain_hashed(69, 71));
    assert!(!f.might_contain_hashed(5, 8));
    assert!(!f.might_contain_hashed(7, 5));
    assert!(!f.set_hashed(69, 71));
    assert!(f.set_hashed(5, 8));
}

#[test]
fn probe_positions_wrap_around() {
    // u64::MAX % 64 = 63, then 1, then (u64::MAX + 2) wrapped = 1
    let mut f = BloomFilter::with_size(64, 3);
    assert!(f.set_hashed(u64::MAX, 1));
    assert!(f.might_contain_hashed(63, 1));
    assert!(!f.set_hashed(1, 63));
    assert!(!f.might_contain_hashed(63, 2));
}

#[test]
fn positions_are_taken_modulo_the_bit_count() {
    // 100 bits: hashes 250 and 1 give positions 50, 1 and 52
    let mut f = BloomFilter::with_size(100, 3);
    assert!(f.set_hashed(250, 1));
    assert!(f.might_contain_hashed(50, 1));
    assert!(f.might_contain_hashed(150, 101));
    assert!(!f.might_contain_hashed(51, 1));
}

#[test]
fn one_function_uses_the_first_hash_only() {
    let mut f = BloomFilter::with_size(64, 1);
    assert!(f.set_hashed(10, 99));
    assert!(f.might_contain_hashed(10, 0));
    assert!(f.might_contain_hashed(74, 5));
    assert!(!f.might_contain_hashed(11, 10));
}

#[test]
fn zero_functions_report_every_item_present() {
    let mut f = BloomFilter::with_size(64, 0);
    assert!(!f.set(b"x"));
    assert!(f.might_contain(b"y"));
}
