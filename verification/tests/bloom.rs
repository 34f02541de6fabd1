use baffles::blocked::BlockedBloom;
use baffles::bloom::{optimal_hashers, BloomFilter, LN2_Q64};
use baffles::standard::StandardBloom;

#[test]
fn optimal_hashers_rounds_up() {
    assert_eq!(optimal_hashers(0), 0);
    assert_eq!(optimal_hashers(1), 1);
    assert_eq!(optimal_hashers(2), 2);
    assert_eq!(optimal_hashers(3), 3);
    assert_eq!(optimal_hashers(8), 6);
    assert_eq!(optimal_hashers(12), 9);
    assert_eq!(optimal_hashers(16), 12);
    assert_eq!(optimal_hashers(32), 23);
    assert_eq!(optimal_hashers(1000), 694);
}

#[test]
fn optimal_hashers_agrees_with_the_logarithm() {
    for c in 1usize..5000 {
        let expected = (c as f64 * std::f64::consts::LN_2).ceil() as usize;
        assert_eq!(optimal_hashers(c), expected);
    }
}

#[test]
fn optimal_hashers_takes_the_largest_count() {
    let k = optimal_hashers(usize::MAX);
    let expected = ((usize::MAX as u128 * LN2_Q64 as u128) >> 64) + 1;
    assert_eq!(k as u128, expected);
}

#[test]
fn the_fixed_point_logarithm_is_the_logarithm() {
    let as_float = LN2_Q64 as f64 / 18446744073709551616.0;
    assert!((as_float - std::f64::consts::LN_2).abs() < 1e-15);
}

fn describe<B: BloomFilter>(filter: &B) -> (String, usize, usize, usize) {
    (
        filter.name().to_string(),
        filter.set_size(),
        filter.bits_per_member(),
        filter.hash_count(),
    )
}

fn name_and_constant<B: BloomFilter>(filter: &B) -> (String, &'static str) {
    (filter.name().to_string(), B::NAME)
}

#[test]
fn name_is_the_name_of_the_implementation() {
    let standard = StandardBloom::new(10, 4, 3);
    assert_eq!(name_and_constant(&standard), ("standard".to_string(), "standard"));
    assert_eq!(<StandardBloom as BloomFilter>::NAME, "standard");
    let blocked = BlockedBloom::new(10, 4, 3, 2);
    assert_eq!(name_and_constant(&blocked), ("blocked".to_string(), "blocked"));
    assert_eq!(<BlockedBloom as BloomFilter>::NAME, "blocked");
}

#[test]
fn filters_report_their_name_and_parameters() {
    let standard = StandardBloom::new(100, 12, 9);
    assert_eq!(describe(&standard), ("standard".to_string(), 100, 12, 9));
    let blocked = BlockedBloom::new(100, 12, 9, 7);
    assert_eq!(describe(&blocked), ("blocked".to_string(), 100, 12, 9));
}

fn mark_and_check<B: BloomFilter>(filter: &mut B) {
    let items: Vec<Vec<u8>> = (0..200u32).map(|i| i.to_le_bytes().to_vec()).collect();
    for (count, item) in items.iter().enumerate() {
        filter.mark(item);
        // Everything marked so far is still reported.
        for earlier in &items[..=count] {
            assert!(filter.check(earlier));
        }
    }
}

#[test]
fn no_filter_forgets_a_marked_item() {
    mark_and_check(&mut StandardBloom::new(200, 10, 7));
    mark_and_check(&mut BlockedBloom::new(200, 10, 7, 1));
    mark_and_check(&mut BlockedBloom::new(200, 10, 7, 6));
    // Far too small a filter gives false positives, never false negatives.
    mark_and_check(&mut StandardBloom::new(1, 1, 1));
    mark_and_check(&mut BlockedBloom::new(3, 2, 2, 5));
}
