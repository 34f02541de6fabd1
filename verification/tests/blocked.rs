use baffles::blocked::BlockedBloom;
use baffles::bloom::{optimal_hashers, BloomFilter};
use baffles::hash_until::{rehash, seeded_hash};
use baffles::index_mask::index_mask;
use baffles::standard::StandardBloom;

// Expected set size.
const N: usize = 128 * 1024;

// Bits per element.
const C: usize = 16;

// Number of hashing algorithms to use.
fn k() -> usize {
    (C as f32 * 0.7).ceil() as usize
}

// Natural logarithm.
fn e() -> f64 {
    1.0f64.exp()
}

// Number of bits in the bloom filter.
const M: usize = N * C;

// Expected false positive rate.
fn fp() -> f64 {
    let n = N as f64;
    let k = k() as f64;
    let m = M as f64;

    (1f64 - e().powf((-k * n) / m)).powf(k)
}

fn insert_n(bb: &mut BlockedBloom, n: usize) {
    for i in 0..n {
        bb.set(&i.to_le_bytes());
    }
}

fn test_n_to_m(bb: &BlockedBloom, n: usize, m: usize) -> usize {
    (n..m).fold(0, |acc, v| {
        if bb.get(&v.to_le_bytes()) {
            acc + 1
        } else {
            acc
        }
    })
}

#[test]
fn blocked_the_basics_work() {
    let mut bb: BlockedBloom = BlockedBloom::new(1024 * 1024, 16, optimal_hashers(16), 4);
    assert!(!bb.check(&100usize.to_le_bytes()));
    bb.mark(&100usize.to_le_bytes());
    assert!(bb.check(&100usize.to_le_bytes()));
}

#[test]
fn it_should_have_standard_behavior_for_block_count_1() {
    let mut bb: BlockedBloom = BlockedBloom::new(N, C, k(), 1);
    insert_n(&mut bb, N);

    let fpos = test_n_to_m(&bb, N, N * 2) as f64;
    let n = N as f64;
    let false_positive_rate = fpos / n;

    println!("false positive rate: {:.7}. expected {:.7}.",
             false_positive_rate, fp());

    assert!(fp() * 2.0 > false_positive_rate);
}

#[test]
fn it_should_have_standard_behavior_for_block_count_16() {
    let mut bb: BlockedBloom = BlockedBloom::new(N, C, k(), 16);
    insert_n(&mut bb, N);

    let fpos = test_n_to_m(&bb, N, N * 2) as f64;
    let n = N as f64;
    let false_positive_rate = fpos / n;

    println!("false positive rate: {:.7}. expected {:.7}.",
             false_positive_rate, fp());

    assert!(fp() * 2.0 > false_positive_rate);
}

#[test]
fn it_should_have_standard_behavior_for_block_count_500() {
    let mut bb: BlockedBloom = BlockedBloom::new(N, C, k(), 500);
    insert_n(&mut bb, N);

    let fpos = test_n_to_m(&bb, N, N * 2) as f64;
    let n = N as f64;
    let false_positive_rate = fpos / n;

    println!("false positive rate: {:.7}. expected {:.7}.",
             false_positive_rate, fp());

    assert!(fp() * 2.0 > false_positive_rate);
}

fn seeds(b: usize) -> Vec<(u64, u64)> {
    (0..b as u64).map(|i| (2 * i + 100, 2 * i + 101)).collect()
}

fn reference_block(seed: u64, b: usize, item: &[u8]) -> usize {
    let upper = (b - 1) as u64;
    let mask = index_mask(upper);
    let mut value = seeded_hash(seed, item);
    while (value & mask) > upper {
        value = rehash(value);
    }
    (value & mask) as usize
}

#[test]
fn block_idx_samples_the_seeded_hash_of_the_item() {
    for b in [1usize, 2, 3, 5, 8, 13, 500] {
        let filter = BlockedBloom::new_with_seeds(1000, 8, 5, 77, seeds(b));
        for i in 0..300u32 {
            let item = i.to_le_bytes();
            let idx = filter.block_idx(&item);
            assert!(idx < b);
            assert_eq!(idx, reference_block(77, b, &item));
        }
    }
}

#[test]
fn block_idx_is_stable() {
    let mut filter = BlockedBloom::new(1000, 8, 5, 12);
    let items: Vec<[u8; 4]> = (0..500u32).map(|i| i.to_le_bytes()).collect();
    let before: Vec<usize> = items.iter().map(|item| filter.block_idx(item)).collect();
    for item in &items {
        assert_eq!(filter.block_idx(item), filter.block_idx(item));
        filter.mark(item);
    }
    let after: Vec<usize> = items.iter().map(|item| filter.block_idx(item)).collect();
    assert_eq!(before, after);
}

#[test]
fn every_block_gets_its_share() {
    let b = 6;
    let filter = BlockedBloom::new(1000, 8, 5, b);
    let mut counts = vec![0usize; b];
    for i in 0..6000u32 {
        counts[filter.block_idx(&i.to_le_bytes())] += 1;
    }
    for count in counts {
        assert!(count > 800 && count < 1200);
    }
}

#[test]
fn a_block_is_a_standard_filter_for_its_share_of_the_members() {
    // 10 members in 4 blocks: 3 to a block, so 3 * 8 = 24 bits in each.
    let b = 4;
    let mut blocked = BlockedBloom::new_with_seeds(10, 8, 5, 9, seeds(b));
    let mut blocks: Vec<StandardBloom> = seeds(b)
        .iter()
        .map(|&(seed1, seed2)| StandardBloom::new_with_seeds(3, 8, 5, seed1, seed2))
        .collect();
    for i in 0..12u32 {
        let item = i.to_le_bytes();
        blocked.mark(&item);
        blocks[reference_block(9, b, &item)].mark(&item);
    }
    for i in 0..3000u32 {
        let item = i.to_le_bytes();
        let expected = blocks[reference_block(9, b, &item)].check(&item);
        assert_eq!(blocked.check(&item), expected);
    }
}

#[test]
fn one_block_is_a_standard_filter() {
    let mut blocked = BlockedBloom::new_with_seeds(400, 8, 5, 1, vec![(31, 32)]);
    let mut standard = StandardBloom::new_with_seeds(400, 8, 5, 31, 32);
    for i in 0..400u32 {
        assert_eq!(blocked.block_idx(&i.to_le_bytes()), 0);
        blocked.mark(&i.to_le_bytes());
        standard.mark(&i.to_le_bytes());
    }
    for i in 0..5000u32 {
        assert_eq!(blocked.check(&i.to_le_bytes()), standard.check(&i.to_le_bytes()));
    }
}

#[test]
fn set_and_get_are_mark_and_check() {
    let mut by_set = BlockedBloom::new_with_seeds(100, 8, 5, 3, seeds(3));
    let mut by_mark = BlockedBloom::new_with_seeds(100, 8, 5, 3, seeds(3));
    for i in 0..100u32 {
        by_set.set(&i.to_le_bytes());
        by_mark.mark(&i.to_le_bytes());
    }
    for i in 0..2000u32 {
        let item = i.to_le_bytes();
        assert_eq!(by_set.get(&item), by_mark.check(&item));
        assert_eq!(by_set.get(&item), by_set.check(&item));
    }
}

#[test]
fn blocked_marking_twice_is_marking_once() {
    let mut once = BlockedBloom::new_with_seeds(300, 10, 7, 5, seeds(4));
    let mut twice = BlockedBloom::new_with_seeds(300, 10, 7, 5, seeds(4));
    for i in 0..100u64 {
        once.mark(&i.to_le_bytes());
        twice.mark(&i.to_le_bytes());
        twice.mark(&i.to_le_bytes());
    }
    for i in 0..5000u64 {
        assert_eq!(once.check(&i.to_le_bytes()), twice.check(&i.to_le_bytes()));
    }
}

#[test]
fn new_blocked_filters_are_empty() {
    let filter = BlockedBloom::new(64, 8, 5, 3);
    for i in 0..200u64 {
        assert!(!filter.check(&i.to_le_bytes()));
    }
    assert_eq!(filter.set_size(), 64);
    assert_eq!(filter.bits_per_member(), 8);
    assert_eq!(filter.hash_count(), 5);
    assert_eq!(filter.name(), "blocked");
}

#[test]
fn more_blocks_than_members() {
    let mut filter = BlockedBloom::new(3, 4, 2, 10);
    for i in 0..3u64 {
        filter.mark(&i.to_le_bytes());
        assert!(filter.check(&i.to_le_bytes()));
    }
}
