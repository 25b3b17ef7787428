use windowfilter::hash::{hash, mix};

#[test]
fn hashing_is_stable_and_seeded() {
    assert_eq!(hash("evan", 7), hash("evan", 7));
    assert_ne!(hash("evan", 7), hash("evan", 8));
    assert_ne!(hash("evan", 7), hash("bob", 7));
}

fn reference_hash(key: &str, seed: u64) -> u64 {
    let mut state = 0xcbf29ce484222325_u64 ^ seed;
    for byte in key.as_bytes() {
        state ^= u64::from(*byte);
        state = state.wrapping_mul(0x100000001b3);
    }
    let mut value = state ^ key.len() as u64;
    value ^= value >> 30;
    value = value.wrapping_mul(0xbf58476d1ce4e5b9);
    value ^= value >> 27;
    value = value.wrapping_mul(0x94d049bb133111eb);
    value ^ (value >> 31)
}

#[test]
fn hash_matches_seeded_fnv_with_avalanche() {
    for key in ["", "a", "evan", "bob", "key-17", "ünïcödé"] {
        for seed in [0_u64, 7, 0x243f6a8885a308d3] {
            assert_eq!(hash(key, seed), reference_hash(key, seed));
        }
    }
}

#[test]
fn mix_of_zero_is_zero_and_spreads_bits() {
    assert_eq!(mix(0), 0);
    assert_ne!(mix(1), 1);
    assert_ne!(mix(1), mix(2));
}

#[test]
fn mix_keeps_distinct_words_distinct() {
    let values: Vec<u64> = (0..1_000).map(|v| mix(v)).collect();
    for i in 0..values.len() {
        for j in (i + 1)..values.len() {
            assert_ne!(values[i], values[j]);
        }
    }
}
