use quantile_sketch::sketch::{BucketStore, SketchError};

const ALPHA: f32 = 0.05;

fn gamma() -> f32 {
    (1.0 + ALPHA) / (1.0 - ALPHA)
}

fn index_of(v: f32) -> i32 {
    (v.log2() * (1.0 / gamma().log2())).ceil() as i32
}

fn value_of(i: i32) -> f32 {
    2.0 / (gamma() + 1.0) * gamma().powi(i)
}

fn close(expected: f32, actual: f32) -> bool {
    expected * (1.0 - ALPHA) <= actual && actual <= expected * (1.0 + ALPHA)
}

fn rank_of(q: f32, n: usize) -> usize {
    (q * (n - 1) as f32).floor() as usize
}

fn estimate(s: &BucketStore, q: f32) -> f32 {
    value_of(s.quantile(rank_of(q, s.size())).unwrap())
}

#[test]
fn new_store_is_empty() {
    let s = BucketStore::new();
    assert_eq!(0, s.size());
    assert_eq!(0, s.bucket_sum());
}

#[test]
fn quantile_of_empty_store_is_no_data() {
    let s = BucketStore::new();
    assert_eq!(Err(SketchError::Empty), s.quantile(0));
    assert_eq!(Err(SketchError::Empty), s.quantile(7));
}

#[test]
fn rank_past_the_end_is_rejected() {
    let mut s = BucketStore::new();
    s.insert(4);
    s.insert(9);
    s.insert(4);
    assert_eq!(Err(SketchError::InvalidQuantile), s.quantile(3));
    assert_eq!(Err(SketchError::InvalidQuantile), s.quantile(usize::MAX));
    assert_eq!(Ok(9), s.quantile(2));
}

#[test]
fn repeated_index_shares_one_bucket() {
    let mut s = BucketStore::new();
    s.insert(7);
    s.insert(7);
    s.insert(-2);
    s.insert(7);
    assert_eq!(4, s.size());
    assert_eq!(4, s.bucket_sum());
    assert_eq!(Ok(-2), s.quantile(0));
    assert_eq!(Ok(7), s.quantile(1));
    assert_eq!(Ok(7), s.quantile(2));
    assert_eq!(Ok(7), s.quantile(3));
}

#[test]
fn ranks_follow_ascending_order() {
    let mut s = BucketStore::new();
    for i in [5, -3, 12, 5, 0, i32::MIN, i32::MAX] {
        s.insert(i);
    }
    let expected = [i32::MIN, -3, 0, 5, 5, 12, i32::MAX];
    for (rank, e) in expected.iter().enumerate() {
        assert_eq!(Ok(*e), s.quantile(rank));
    }
}

#[test]
fn count_matches_number_of_inserts() {
    let mut s = BucketStore::new();
    for n in 0..100usize {
        assert_eq!(n, s.size());
        assert_eq!(n, s.bucket_sum());
        s.insert((n % 13) as i32 - 6);
    }
    assert_eq!(100, s.size());
    assert_eq!(100, s.bucket_sum());
}

#[test]
fn boundary_ranks_give_smallest_and_largest() {
    let mut s = BucketStore::new();
    for i in [30, -8, 14, 2, 30, -1] {
        s.insert(i);
    }
    assert_eq!(Ok(-8), s.quantile(0));
    assert_eq!(Ok(30), s.quantile(s.size() - 1));
}

#[test]
fn repeated_queries_agree() {
    let mut s = BucketStore::new();
    for i in [3, 1, 4, 1, 5, 9, 2, 6] {
        s.insert(i);
    }
    for rank in 0..8 {
        assert_eq!(s.quantile(rank), s.quantile(rank));
    }
    assert_eq!(Ok(3), s.quantile(3));
}

#[test]
fn four_values_scenario() {
    let mut s = BucketStore::new();
    for v in [0.1f32, 0.2, 1000.0, 1e8] {
        s.insert(index_of(v));
    }
    assert_eq!(4, s.size());
    let lo = estimate(&s, 0.0);
    let hi = estimate(&s, 1.0);
    assert!(0.095 <= lo && lo <= 0.105);
    assert!(0.95e8 <= hi && hi <= 1.05e8);
}

#[test]
fn single_value_scenario() {
    let mut s = BucketStore::new();
    s.insert(index_of(0.1));
    let lo = estimate(&s, 0.0);
    let hi = estimate(&s, 1.0);
    assert_eq!(lo, hi);
    assert!(0.095 <= lo && lo <= 0.105);
}

#[test]
fn deciles_of_pseudo_random_values() {
    let mut state: u64 = 0x2545_f491_4f6c_dd1d;
    let mut items: Vec<f32> = Vec::new();
    for _ in 0..10 {
        state = state.wrapping_mul(6364136223846793005).wrapping_add(1442695040888963407);
        let unit = ((state >> 40) as f32) / ((1u64 << 24) as f32);
        items.push(1e-3 + unit * 1e8);
    }
    let mut s = BucketStore::new();
    for &v in &items {
        s.insert(index_of(v));
    }
    let mut sorted = items.clone();
    sorted.sort_unstable_by(f32::total_cmp);
    for pct in (0..=100).step_by(10) {
        let q = pct as f32 / 100.0;
        let value = sorted[rank_of(q, items.len())];
        assert!(close(value, estimate(&s, q)));
    }
}
