use windowfilter::packed::PackedSlots;

#[test]
fn values_survive_word_boundaries() {
    for width in 1..=32 {
        let mut slots = PackedSlots::new(137, width);
        let mask = (1_u64 << width) - 1;
        for index in 0..137 {
            slots.set(index, ((index as u64 * 37 + 11) & mask) as u32);
        }
        for index in 0..137 {
            assert_eq!(slots.get(index), ((index as u64 * 37 + 11) & mask) as u32);
        }
    }
}

#[test]
fn swap_returns_old_value() {
    let mut slots = PackedSlots::new(3, 9);
    slots.set(1, 17);
    assert_eq!(slots.swap(1, 42), 17);
    assert_eq!(slots.get(1), 42);
}

#[test]
fn set_keeps_only_the_low_width_bits() {
    let mut slots = PackedSlots::new(4, 5);
    slots.set(2, 0xff);
    assert_eq!(slots.get(2), 0x1f);
    assert_eq!(slots.get(1), 0);
    assert_eq!(slots.get(3), 0);
}

#[test]
fn neighbours_of_a_straddling_slot_are_untouched() {
    let mut slots = PackedSlots::new(10, 30);
    for index in 0..10 {
        slots.set(index, (1 << 30) - 1);
    }
    slots.set(2, 0);
    assert_eq!(slots.get(1), (1 << 30) - 1);
    assert_eq!(slots.get(2), 0);
    assert_eq!(slots.get(3), (1 << 30) - 1);
}

#[test]
fn new_slots_read_zero_and_bytes_round_up_to_words() {
    let slots = PackedSlots::new(137, 13);
    for index in 0..137 {
        assert_eq!(slots.get(index), 0);
    }
    // 137 * 13 = 1781 bits, 28 words.
    assert_eq!(slots.bytes(), 224);
    assert_eq!(PackedSlots::new(64, 1).bytes(), 8);
    assert_eq!(PackedSlots::new(65, 1).bytes(), 16);
}
