use fractal_zoomer::natural::Natural;
use fractal_zoomer::shares::{proportional_shares, rounded_part_of};

/// The share of each worker as floating point gives it.
fn float_shares(height: u32, times: &[u64]) -> Vec<u32> {
    let capabilities: Vec<f64> = times.iter().map(|t| 1000.0 / (*t as f64)).collect();
    let total: f64 = capabilities.iter().sum();
    capabilities.iter().map(|c| ((height as f64) * (c / total)).round() as u32).collect()
}

fn natural(x: u128) -> Natural {
    let low = Natural::from_u64(x as u64);
    let high = Natural::from_u64((x >> 64) as u64);
    // high * 2^64 = high * (2^32 * 2^32)
    high.times_small(1 << 32).times_small(1 << 32).plus(&low)
}

#[test]
fn two_workers_share_in_proportion() {
    assert_eq!(proportional_shares(100, &vec![100, 400]), vec![80, 20]);
    assert_eq!(proportional_shares(100, &vec![400, 100]), vec![20, 80]);
}

#[test]
fn equal_workers_share_equally() {
    assert_eq!(proportional_shares(100, &vec![1000, 1000, 1000]), vec![33, 33, 33]);
    assert_eq!(proportional_shares(100, &vec![7, 7, 7]), vec![33, 33, 33]);
    assert_eq!(proportional_shares(100, &vec![5, 5]), vec![50, 50]);
}

#[test]
fn half_a_row_counts_upwards() {
    assert_eq!(proportional_shares(5, &vec![9, 9]), vec![3, 3]);
    assert_eq!(proportional_shares(1, &vec![1, 1]), vec![1, 1]);
    assert_eq!(proportional_shares(3, &vec![1, 3]), vec![2, 1]);
    assert_eq!(proportional_shares(2, &vec![1, 3]), vec![2, 1]);
}

#[test]
fn one_worker_or_none() {
    assert_eq!(proportional_shares(32, &vec![100]), vec![32]);
    assert_eq!(proportional_shares(0, &vec![100]), vec![0]);
    assert_eq!(proportional_shares(u32::MAX, &vec![u64::MAX]), vec![u32::MAX]);
    assert!(proportional_shares(32, &vec![]).is_empty());
}

#[test]
fn shares_of_very_different_workers() {
    assert_eq!(proportional_shares(1000, &vec![1, u64::MAX]), vec![1000, 0]);
    assert_eq!(proportional_shares(u32::MAX, &vec![u64::MAX, u64::MAX]), vec![2147483648, 2147483648]);
    assert_eq!(
        proportional_shares(600, &vec![u64::MAX, u64::MAX, u64::MAX, u64::MAX, u64::MAX, u64::MAX]),
        vec![100, 100, 100, 100, 100, 100]
    );
    assert_eq!(proportional_shares(600, &vec![300, 100, 150]), vec![100, 300, 200]);
}

#[test]
fn shares_agree_with_floating_point() {
    let mut seed: u64 = 99;
    let mut next = move |bound: u64| {
        seed = seed.wrapping_mul(6364136223846793005).wrapping_add(1442695040888963407);
        (seed >> 33) % bound
    };
    for _ in 0..300 {
        let workers = 1 + next(12) as usize;
        let height = next(3000) as u32;
        let times: Vec<u64> = (0..workers).map(|_| 1 + next(5000)).collect();
        let exact = proportional_shares(height, &times);
        let float = float_shares(height, &times);
        assert_eq!(exact.len(), workers);
        for i in 0..workers {
            assert!(
                (exact[i] as i64 - float[i] as i64).abs() <= 1,
                "{} rows among {:?}: {:?} against {:?}",
                height,
                times,
                exact,
                float
            );
        }
        let sum: u64 = exact.iter().map(|s| *s as u64).sum();
        assert!((sum as i64 - height as i64).abs() <= workers as i64);
    }
}

#[test]
fn rounded_part_of_a_height() {
    let part = |h: u32, w: u128, t: u128| rounded_part_of(h, &natural(w), &natural(t));
    assert_eq!(part(100, 10, 125), 8);
    assert_eq!(part(100, 1, 3), 33);
    assert_eq!(part(100, 2, 3), 67);
    assert_eq!(part(5, 1, 2), 3);
    assert_eq!(part(7, 0, 1), 0);
    assert_eq!(part(7, 1, 1), 7);
    assert_eq!(part(u32::MAX, 1, 1), u32::MAX);
    assert_eq!(part(1000, 1 << 100, 1 << 101), 500);
    assert_eq!(part(1000, (1 << 100) - 1, 1 << 101), 500);
    assert_eq!(part(1001, (1 << 100) - 1, 1 << 101), 500);
    assert_eq!(part(1001, 1 << 100, 1 << 101), 501);
}

#[test]
fn naturals_compare_by_value() {
    let numbers: Vec<u128> = vec![
        0,
        1,
        u64::MAX as u128,
        1 << 64,
        (1 << 64) + 1,
        u128::MAX / 3,
        u128::MAX - 1,
        u128::MAX,
    ];
    for a in &numbers {
        for b in &numbers {
            assert_eq!(natural(*a).at_most(&natural(*b)), a <= b, "{} against {}", a, b);
        }
    }
    assert!(Natural::from_u64(5).at_most(&Natural::from_u64(5)));
    assert!(!Natural::from_u64(6).at_most(&Natural::from_u64(5)));
}

#[test]
fn naturals_add_and_multiply() {
    let a: u128 = 0xFFFF_FFFF_FFFF_FFFF_FFFF;
    let b: u128 = 0x1234_5678_9ABC_DEF0_1234_5678;
    let sum = natural(a).plus(&natural(b));
    assert!(sum.at_most(&natural(a + b)) && natural(a + b).at_most(&sum));
    let product = natural(a).times_small(1_000_003);
    assert!(product.at_most(&natural(a * 1_000_003)) && natural(a * 1_000_003).at_most(&product));
    let zero = natural(b).times_small(0);
    assert!(zero.at_most(&Natural::from_u64(0)));
    let carried = Natural::from_u64(u64::MAX).plus(&Natural::from_u64(1));
    assert!(carried.at_most(&natural(1 << 64)) && natural(1 << 64).at_most(&carried));
    let big = natural(u128::MAX).times_small(u64::MAX).times_small(u64::MAX);
    assert!(natural(u128::MAX).at_most(&big));
    assert!(!big.at_most(&natural(u128::MAX)));
    assert!(big.at_most(&big.plus(&Natural::from_u64(0))));
}

#[test]
fn naturals_divide_by_a_small_number() {
    let same = |a: &Natural, b: u128| a.at_most(&natural(b)) && natural(b).at_most(a);
    assert!(same(&natural(100).divided_by_small(7), 14));
    assert!(same(&natural(0).divided_by_small(1), 0));
    assert!(same(&natural(u128::MAX).divided_by_small(1), u128::MAX));
    assert!(same(&natural(u128::MAX).divided_by_small(u64::MAX), u128::MAX / (u64::MAX as u128)));
    assert!(same(&natural(1 << 64).divided_by_small(2), 1 << 63));
    assert!(same(&natural((1 << 64) - 1).divided_by_small(u64::MAX), 1));
    assert!(same(&natural(0x1234_5678_9ABC_DEF0_1234_5678_9ABC).divided_by_small(1_000_003),
        0x1234_5678_9ABC_DEF0_1234_5678_9ABC / 1_000_003));
    let big = natural(u128::MAX).times_small(12345).times_small(u64::MAX);
    let back = big.divided_by_small(u64::MAX).divided_by_small(12345);
    assert!(same(&back, u128::MAX));
}

#[test]
fn shares_of_many_workers() {
    let times: Vec<u64> = (0..400u64).map(|k| 50 + (k * 7919) % 1000).collect();
    let shares = proportional_shares(100_000, &times);
    let float = float_shares(100_000, &times);
    assert_eq!(shares.len(), 400);
    for i in 0..400 {
        assert!((shares[i] as i64 - float[i] as i64).abs() <= 1);
    }
    let equal = proportional_shares(1000, &vec![u64::MAX; 250]);
    assert_eq!(equal, vec![4; 250]);
}
