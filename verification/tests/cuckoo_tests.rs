use windowfilter::CuckooFilter;
use windowfilter::cuckoo::slots_required;

#[test]
fn cuckoo_supports_insert_lookup_and_delete() {
    let mut filter = CuckooFilter::new(1_000, 10);
    assert!(filter.insert("evan"));
    assert!(filter.contains("evan"));
    assert!(!filter.contains("bob"));
    assert!(filter.delete("evan"));
    assert!(!filter.contains("evan"));
    assert!(filter.is_empty());
}

#[test]
fn retains_every_successful_insert() {
    let mut filter = CuckooFilter::new(2_000, 12).with_max_kicks(2_000);
    let mut inserted = Vec::new();
    for value in 0..2_000 {
        let key = format!("key-{value}");
        assert!(filter.insert(&key));
        inserted.push(key);
    }
    assert!(inserted.iter().all(|key| filter.contains(key)));
    assert_eq!(filter.len(), 2_000);
    assert_eq!(filter.fingerprint_bits(), 15);
}

#[test]
fn failed_insert_rolls_back_relocations() {
    let mut filter = CuckooFilter::new(1, 20).with_max_kicks(16);
    let mut inserted = Vec::new();
    for value in 0..100 {
        let key = format!("tiny-{value}");
        if filter.insert(&key) {
            inserted.push(key);
        } else {
            assert!(inserted.iter().all(|key| filter.contains(key)));
            return;
        }
    }
    panic!("tiny filter never filled");
}

#[test]
fn bucket_count_is_the_next_power_of_two() {
    // 2000 / 0.95 = 2105.3 slots, 527 buckets, 1024 after rounding up.
    assert_eq!(CuckooFilter::new(2_000, 12).slot_count(), 4_096);
    // A single key still gets two buckets.
    assert_eq!(CuckooFilter::new(1, 20).slot_count(), 8);
    // 4096 slots of 15 bits: 960 words.
    assert_eq!(CuckooFilter::new(2_000, 12).memory_bytes(), 7_680);
}

#[test]
fn a_failed_insert_changes_no_count() {
    let mut filter = CuckooFilter::new(1, 20).with_max_kicks(4);
    let mut stored = 0;
    for value in 0..100 {
        if filter.insert(&format!("tiny-{value}")) {
            stored += 1;
        } else {
            assert_eq!(filter.len(), stored);
            assert!(stored <= filter.slot_count());
            return;
        }
    }
    panic!("tiny filter never filled");
}

#[test]
fn delete_of_an_absent_key_reports_false() {
    let mut filter = CuckooFilter::new(100, 10);
    assert!(filter.insert("evan"));
    assert!(!filter.delete("bob"));
    assert_eq!(filter.len(), 1);
    assert!(filter.contains("evan"));
}

#[test]
fn duplicate_inserts_need_duplicate_deletes() {
    let mut filter = CuckooFilter::new(100, 10);
    assert!(filter.insert("evan"));
    assert!(filter.insert("evan"));
    assert_eq!(filter.len(), 2);
    assert!(filter.delete("evan"));
    assert!(filter.contains("evan"));
    assert!(filter.delete("evan"));
    assert!(!filter.contains("evan"));
    assert!(!filter.delete("evan"));
}

#[test]
fn a_new_filter_contains_nothing() {
    let filter = CuckooFilter::new(1_000, 10);
    for value in 0..1_000 {
        assert!(!filter.contains(&format!("key-{value}")));
    }
    assert!(filter.is_empty());
}

#[test]
fn delete_undoes_insert() {
    let mut filter = CuckooFilter::new(1_000, 10);
    for value in 0..500 {
        assert!(filter.insert(&format!("key-{value}")));
    }
    assert!(filter.insert("evan"));
    assert!(filter.delete("evan"));
    assert_eq!(filter.len(), 500);
    for value in 0..500 {
        assert!(filter.contains(&format!("key-{value}")));
    }
}

#[test]
fn cuckoo_supports_matches_the_constructor_checks() {
    assert!(CuckooFilter::supports(1_000, 29));
    assert!(!CuckooFilter::supports(1_000, 30));
    assert!(!CuckooFilter::supports(1_000, 0));
    assert!(!CuckooFilter::supports(0, 10));
    assert!(!CuckooFilter::supports(usize::MAX, 29));
}

#[test]
fn slot_count_is_a_fixed_power_of_two() {
    for capacity in [1, 2, 7, 100, 1_000, 12_345] {
        let mut filter = CuckooFilter::new(capacity, 8);
        let slots = filter.slot_count();
        assert!(slots.is_power_of_two());
        assert!(slots >= 8);
        assert!(slots as f64 >= capacity as f64 / 0.95);
        for value in 0..capacity {
            filter.insert(&format!("key-{value}"));
        }
        filter.delete("key-0");
        assert_eq!(filter.slot_count(), slots);
    }
}

#[test]
fn keys_inserted_and_not_deleted_stay_present() {
    let mut filter = CuckooFilter::new(1_000, 12);
    for value in 0..800 {
        assert!(filter.insert(&format!("key-{value}")));
    }
    for value in (0..800).step_by(2) {
        assert!(filter.delete(&format!("key-{value}")));
    }
    for value in (1..800).step_by(2) {
        assert!(filter.contains(&format!("key-{value}")));
    }
    assert_eq!(filter.len(), 400);
    let copy = filter.clone();
    assert!(copy.contains("key-1"));
}

#[test]
fn required_slots_round_the_quotient_as_binary64() {
    // 1000 / 0.95 = 1052.6, so 1053 slots.
    assert_eq!(slots_required(1_000), 1_053);
    assert_eq!(slots_required(19), 20);
    // Above 2^53 the capacity itself is rounded to a binary64 value first: the
    // exact quotient would ask for one slot more than a power of two.
    assert_eq!(slots_required(17_113_678_584_007_885), 18_014_398_509_481_984);
}
