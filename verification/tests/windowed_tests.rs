use windowfilter::WindowedCuckooFilter;
use windowfilter::windowed::slots_for;

#[test]
fn windowed_supports_insert_lookup_and_delete() {
    let mut filter = WindowedCuckooFilter::new(1_000, 10);
    assert!(filter.insert("evan"));
    assert!(filter.contains("evan"));
    assert!(!filter.contains("bob"));
    assert!(filter.delete("evan"));
    assert!(!filter.contains("evan"));
    assert!(filter.is_empty());
}

#[test]
fn retains_keys_at_the_design_load() {
    let mut filter = WindowedCuckooFilter::new(2_000, 12).with_max_kicks(2_000);
    let mut inserted = Vec::new();
    for value in 0..2_000 {
        let key = format!("key-{value}");
        assert!(filter.insert(&key), "insertion failed at {value}");
        inserted.push(key);
    }
    assert!(inserted.iter().all(|key| filter.contains(key)));
    assert_eq!(filter.len(), 2_000);
    assert_eq!(filter.fingerprint_bits(), 12);
    assert_eq!(filter.bits_per_slot(), 14);
    let load_factor = filter.len() as f64 / filter.slot_count() as f64;
    assert!(load_factor >= 0.939);
}

#[test]
fn uses_flexible_non_power_of_two_storage() {
    let filter = WindowedCuckooFilter::new(1_000, 10);
    assert!(!filter.slot_count().is_power_of_two());
    assert_eq!(filter.memory_bytes(), 1_600);
}

#[test]
fn slot_count_covers_the_design_load() {
    // 1000 / 0.94 = 1063.8, so 1064 slots.
    assert_eq!(WindowedCuckooFilter::new(1_000, 10).slot_count(), 1_064);
    // Never fewer than three slots.
    assert_eq!(WindowedCuckooFilter::new(1, 10).slot_count(), 3);
    assert_eq!(WindowedCuckooFilter::new(2, 10).slot_count(), 3);
    assert_eq!(WindowedCuckooFilter::new(3, 10).slot_count(), 4);
}

#[test]
fn slot_count_rounds_the_quotient_as_binary64() {
    // 3807 / 0.94 is exactly 4050, but 0.94 as a binary64 value lies a little
    // below 0.94, the quotient lies above 4050, and the count rounds up to 4051.
    assert_eq!(WindowedCuckooFilter::new(3_807, 10).slot_count(), 4_051);
    assert_eq!(slots_for(3_807), 4_051);
    assert_eq!(slots_for(7_567), 8_051);
    assert_eq!(slots_for(1_000), 1_064);
    assert_eq!(slots_for(1), 3);
}

#[test]
fn a_failed_insert_keeps_every_key() {
    let mut filter = WindowedCuckooFilter::new(1, 20).with_max_kicks(8);
    let mut inserted = Vec::new();
    for value in 0..100 {
        let key = format!("tiny-{value}");
        if filter.insert(&key) {
            inserted.push(key);
        } else {
            assert!(inserted.iter().all(|key| filter.contains(key)));
            assert_eq!(filter.len(), inserted.len());
            assert!(inserted.len() <= filter.slot_count());
            return;
        }
    }
    panic!("tiny filter never filled");
}

#[test]
fn windowed_delete_of_an_absent_key_reports_false() {
    let mut filter = WindowedCuckooFilter::new(100, 10);
    assert!(filter.insert("evan"));
    assert!(!filter.delete("bob"));
    assert_eq!(filter.len(), 1);
    assert!(filter.contains("evan"));
}

#[test]
fn windowed_duplicate_inserts_need_duplicate_deletes() {
    let mut filter = WindowedCuckooFilter::new(100, 10);
    assert!(filter.insert("evan"));
    assert!(filter.insert("evan"));
    assert_eq!(filter.len(), 2);
    assert!(filter.delete("evan"));
    assert!(filter.contains("evan"));
    assert!(filter.delete("evan"));
    assert!(!filter.contains("evan"));
}

#[test]
fn deleting_every_key_empties_the_filter() {
    let mut filter = WindowedCuckooFilter::new(500, 12);
    for value in 0..400 {
        assert!(filter.insert(&format!("key-{value}")));
    }
    for value in 0..400 {
        assert!(filter.delete(&format!("key-{value}")));
    }
    assert!(filter.is_empty());
    for value in 0..400 {
        assert!(!filter.contains(&format!("key-{value}")));
    }
}

#[test]
fn a_new_windowed_filter_contains_nothing() {
    let filter = WindowedCuckooFilter::new(1_000, 10);
    for value in 0..1_000 {
        assert!(!filter.contains(&format!("key-{value}")));
    }
    assert!(filter.is_empty());
}

#[test]
fn windowed_delete_undoes_insert() {
    let mut filter = WindowedCuckooFilter::new(1_000, 10);
    for value in 0..500 {
        assert!(filter.insert(&format!("key-{value}")));
    }
    assert!(filter.insert("evan"));
    assert!(filter.delete("evan"));
    assert_eq!(filter.len(), 500);
    for value in 0..500 {
        assert!(filter.contains(&format!("key-{value}")));
    }
}

#[test]
fn windowed_supports_matches_the_constructor_checks() {
    assert!(WindowedCuckooFilter::supports(1_000, 30));
    assert!(!WindowedCuckooFilter::supports(1_000, 31));
    assert!(!WindowedCuckooFilter::supports(1_000, 0));
    assert!(!WindowedCuckooFilter::supports(0, 10));
    assert!(!WindowedCuckooFilter::supports(usize::MAX, 30));
}

#[test]
fn windowed_keys_inserted_and_not_deleted_stay_present() {
    let mut filter = WindowedCuckooFilter::new(1_000, 12);
    for value in 0..800 {
        assert!(filter.insert(&format!("key-{value}")));
    }
    for value in (0..800).step_by(2) {
        assert!(filter.delete(&format!("key-{value}")));
    }
    for value in (1..800).step_by(2) {
        assert!(filter.contains(&format!("key-{value}")));
    }
    assert_eq!(filter.len(), 400);
    let copy = filter.clone();
    assert!(copy.contains("key-1"));
}
