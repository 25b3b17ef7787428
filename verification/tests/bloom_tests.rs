use windowfilter::BloomFilter;
use windowfilter::bloom::word_count_for;

#[test]
fn inserted_keys_are_always_found() {
    let mut filter = BloomFilter::new(1_000, 10);
    for value in 0..1_000 {
        assert!(filter.insert(&format!("key-{value}")));
    }
    for value in 0..1_000 {
        assert!(filter.contains(&format!("key-{value}")));
    }
}

#[test]
fn reports_compact_storage() {
    let filter = BloomFilter::new(1_000, 10);
    assert!(filter.memory_bytes() < 2_000);
    assert_eq!(filter.capacity(), 1_000);
    assert!(filter.is_empty());
}

#[test]
fn sizing_follows_the_target_rate() {
    // 1000 * 10 / ln 2 = 14426.95 bits, 226 words.
    let filter = BloomFilter::new(1_000, 10);
    assert_eq!(filter.memory_bytes(), 226 * 8);
    // At least one word.
    let tiny = BloomFilter::new(1, 1);
    assert_eq!(tiny.memory_bytes(), 8);
}

#[test]
fn an_insert_keeps_earlier_keys_and_counts() {
    let mut filter = BloomFilter::new(100, 8);
    assert!(filter.insert("evan"));
    assert!(filter.contains("evan"));
    assert!(filter.insert("bob"));
    assert!(filter.contains("evan"));
    assert!(filter.contains("bob"));
    assert_eq!(filter.len(), 2);
    assert!(!filter.is_empty());
}

#[test]
fn an_empty_filter_contains_nothing() {
    let filter = BloomFilter::new(100, 8);
    assert!(!filter.contains("evan"));
    assert!(!filter.contains(""));
    assert_eq!(filter.len(), 0);
}

#[test]
fn probe_count_is_optimal_for_the_bit_count() {
    // 14464 bits / 1000 keys * ln 2 = 10.03, so ten probes.
    let filter = BloomFilter::new(1_000, 10);
    assert_eq!(filter.bit_count(), 14_464);
    assert_eq!(filter.hash_count(), 10);
    // 64 bits for one key: 64 * ln 2 = 44.4, so 44 probes.
    assert_eq!(BloomFilter::new(1, 1).hash_count(), 44);
}

#[test]
fn one_insert_sets_at_most_one_bit_per_probe() {
    let mut filter = BloomFilter::new(1_000, 10);
    assert_eq!(filter.set_bit_count(), 0);
    assert!(filter.insert("evan"));
    let set = filter.set_bit_count();
    assert!(set >= 1);
    assert!(set <= filter.hash_count() as usize);
    assert!(filter.insert("evan"));
    assert_eq!(filter.set_bit_count(), set);
}

#[test]
fn supports_matches_the_constructor_checks() {
    assert!(BloomFilter::supports(1_000, 10));
    assert!(!BloomFilter::supports(0, 10));
    assert!(!BloomFilter::supports(1_000, 0));
    assert!(!BloomFilter::supports(usize::MAX, 255));
}

#[test]
fn every_insert_counts_and_capacity_stays() {
    let mut filter = BloomFilter::new(10, 8);
    for round in 0..3 {
        for value in 0..20 {
            assert!(filter.insert(&format!("key-{value}")));
        }
        assert_eq!(filter.len(), 20 * (round + 1));
        assert_eq!(filter.capacity(), 10);
    }
    for value in 0..20 {
        assert!(filter.contains(&format!("key-{value}")));
    }
    let copy = filter.clone();
    assert_eq!(copy.len(), filter.len());
    assert!(copy.contains("key-3"));
}

#[test]
fn word_count_rounds_each_step_as_binary64() {
    // 1000 * 10 / ln 2 = 14426.95, so 14427 bits in 226 words.
    assert_eq!(word_count_for(1_000, 10), 226);
    // Never fewer than 64 bits.
    assert_eq!(word_count_for(1, 1), 1);
    // The product and the quotient are each rounded to a binary64 value, which
    // here keeps the request at a whole number of words.
    assert_eq!(word_count_for(973_619_619_541, 8), 175_579_524_603);
}
