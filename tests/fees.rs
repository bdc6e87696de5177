use rust_core::fee::{
    calculate_fee, clear_fee_cache, compute_fee, get_cache_size, FeeCache, FeeError, FEE_FLOOR,
    FEE_PEAK, PRICE_ONE,
};
use rust_core::scan::calculate_total_cost;

fn float_fee(price: f64) -> f64 {
    let certainty = (2.0 * price - 1.0).abs();
    (0.001_f64).max(0.03 * (1.0 - certainty))
}

#[test]
fn fee_at_midpoint_and_extremes() {
    let mut cache = FeeCache::new();
    assert_eq!(calculate_fee(&mut cache, 500_000), Ok(30_000_000));
    assert_eq!(calculate_fee(&mut cache, 0), Ok(1_000_000));
    assert_eq!(calculate_fee(&mut cache, 1_000_000), Ok(1_000_000));
}

#[test]
fn fee_formula_exact_values() {
    let mut cache = FeeCache::new();
    // certainty 0.2 -> 0.03 * 0.8 = 0.024
    assert_eq!(calculate_fee(&mut cache, 400_000), Ok(24_000_000));
    // certainty 0.1 -> 0.03 * 0.9 = 0.027
    assert_eq!(calculate_fee(&mut cache, 550_000), Ok(27_000_000));
    // 0.03 * (1 - 0.98) = 0.0006, below the floor
    assert_eq!(calculate_fee(&mut cache, 10_000), Ok(1_000_000));
    // 0.03 * (1 - 0.9) = 0.003, above the floor
    assert_eq!(calculate_fee(&mut cache, 50_000), Ok(3_000_000));
    // exactly at the floor: 0.03 * x = 0.001 at x = 1/30
    assert_eq!(compute_fee(983_334), 1_000_000);
}

#[test]
fn fee_bounded_and_symmetric() {
    let mut cache = FeeCache::new();
    let mut p: i64 = 0;
    while p <= PRICE_ONE as i64 {
        let f = calculate_fee(&mut cache, p).unwrap();
        assert!(f >= FEE_FLOOR && f <= FEE_PEAK);
        let g = calculate_fee(&mut cache, PRICE_ONE as i64 - p).unwrap();
        assert_eq!(f, g);
        p += 12_345;
    }
}

#[test]
fn fee_out_of_range_fails() {
    let mut cache = FeeCache::new();
    assert_eq!(calculate_fee(&mut cache, -100_000), Err(FeeError::OutOfRange { price: -100_000 }));
    assert_eq!(calculate_fee(&mut cache, 1_100_000), Err(FeeError::OutOfRange { price: 1_100_000 }));
    assert_eq!(calculate_fee(&mut cache, -1), Err(FeeError::OutOfRange { price: -1 }));
    assert_eq!(calculate_fee(&mut cache, 1_000_001), Err(FeeError::OutOfRange { price: 1_000_001 }));
    assert_eq!(get_cache_size(&cache), 0);
}

#[test]
fn out_of_range_message_names_price() {
    let e = FeeError::OutOfRange { price: 1_100_000 };
    assert_eq!(e.message(), "Price must be between 0 and 1000000 millionths, got 1100000");
    let e = FeeError::OutOfRange { price: -7 };
    assert_eq!(e.message(), "Price must be between 0 and 1000000 millionths, got -7");
}

#[test]
fn repeated_lookups_keep_cache_size() {
    let mut cache = FeeCache::new();
    let first = calculate_fee(&mut cache, 300_000).unwrap();
    assert_eq!(get_cache_size(&cache), 1);
    for _ in 0..10 {
        assert_eq!(calculate_fee(&mut cache, 300_000).unwrap(), first);
        assert_eq!(get_cache_size(&cache), 1);
    }
    calculate_fee(&mut cache, 700_000).unwrap();
    assert_eq!(get_cache_size(&cache), 2);
    clear_fee_cache(&mut cache);
    assert_eq!(get_cache_size(&cache), 0);
    assert_eq!(calculate_fee(&mut cache, 300_000).unwrap(), first);
    assert_eq!(get_cache_size(&cache), 1);
}

#[test]
fn cache_get_or_compute_and_len() {
    let mut cache = FeeCache::new();
    assert_eq!(cache.get_or_compute(250_000), 15_000_000);
    assert_eq!(cache.get_or_compute(250_000), 15_000_000);
    assert_eq!(cache.len(), 1);
    cache.clear();
    assert_eq!(cache.len(), 0);
}

#[test]
fn cached_fees_match_fresh_computation() {
    let mut cache = FeeCache::new();
    let mut state: u64 = 0x2545_f491_4f6c_dd1d;
    for _ in 0..1000 {
        state = state.wrapping_mul(6364136223846793005).wrapping_add(1442695040888963407);
        let p = ((state >> 33) % (PRICE_ONE + 1)) as i64;
        let cached = calculate_fee(&mut cache, p).unwrap();
        let again = calculate_fee(&mut cache, p).unwrap();
        assert_eq!(cached, again);
        assert_eq!(cached, compute_fee(p as u64));
        let expected = float_fee(p as f64 / 1e6);
        assert!((cached as f64 / 1e9 - expected).abs() < 1e-9);
    }
}

#[test]
fn total_cost_at_midpoint() {
    let mut cache = FeeCache::new();
    assert_eq!(
        calculate_total_cost(&mut cache, 500_000, 500_000),
        Ok((30_000_000, 30_000_000, 1_030_000_000_000_000))
    );
}

#[test]
fn total_cost_exact_and_errors() {
    let mut cache = FeeCache::new();
    // 0.40 + 0.55 + 0.40 * 0.024 + 0.55 * 0.027 = 0.97445
    assert_eq!(
        calculate_total_cost(&mut cache, 400_000, 550_000),
        Ok((24_000_000, 27_000_000, 974_450_000_000_000))
    );
    assert_eq!(
        calculate_total_cost(&mut cache, -1, 2_000_000),
        Err(FeeError::OutOfRange { price: -1 })
    );
    assert_eq!(
        calculate_total_cost(&mut cache, 500_000, 2_000_000),
        Err(FeeError::OutOfRange { price: 2_000_000 })
    );
}
