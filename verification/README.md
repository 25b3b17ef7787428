# windowfilter

Three approximate membership filters over bit-packed storage, written in Verus
with their behaviour stated in contracts and proved:

- `BloomFilter`: Kirsch–Mitzenmacher double hashing over a bit array; no false
  negatives, no deletion.
- `CuckooFilter`: a `(2, 4)` cuckoo filter with power-of-two bucket counts and
  xor-paired buckets.
- `WindowedCuckooFilter`: a `(2, 2)` cuckoo filter whose two-slot windows overlap,
  with any number of windows; each slot records its window choice and offset.

## Layout

- `src/hash.rs`: seeded FNV-1a over the key's UTF-8 bytes with an avalanche step.
- `src/packed.rs`: `PackedSlots`, fixed-width slots packed into 64-bit words; its
  view is the sequence of slot values, and a write changes exactly one slot.
- `src/bloom.rs`, `src/cuckoo.rs`, `src/windowed.rs`: the filters. Each has an
  abstract view (the set bits, or the multiset of stored fingerprint entries),
  contracts over that view, and public proof functions for the laws that relate
  operations (no false negatives, a failed insert keeps every key, delete undoes
  insert, and so on).
- `src/rounding.rs`: round-to-nearest binary64 arithmetic on integers and integer
  ratios (53 significant bits, ties to even), used by the sizing rules.
- `tests/`: tests of the library.
- `app/`: the benchmark program, and the load factors and false-positive estimate,
  which are floating point.

Sizing follows binary64 arithmetic exactly, computed in integers: the capacity
and every intermediate result are taken as their nearest binary64 values, then
`capacity / 0.95` and `capacity / 0.94` are rounded up for the cuckoo filters,
and `capacity * fpr_bits / ln 2` for the Bloom filter. The Bloom filter's probe
count, `bit_count / capacity * ln 2` rounded to nearest, is computed from the
exact ratio with `ln 2` as its nearest binary64 value.
