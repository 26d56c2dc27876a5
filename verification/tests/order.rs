use stat_core::keys::SIGN_BIT;
use stat_core::{mode, rank, sort_key, sorted_places};

fn keys(data: &[f64]) -> Vec<i64> {
    data.iter().map(|x| sort_key(x.to_bits())).collect()
}

fn ranks(data: &[f64]) -> Vec<f64> {
    rank(&keys(data)).iter().map(|&doubled| doubled as f64 / 2.0).collect()
}

fn check_rank() {
    let data = [10.0, 20.0, 20.0, 30.0];
    let expected = vec![1.0, 2.5, 2.5, 4.0];
    assert_eq!(ranks(&data), expected);
}

#[test]
fn stats_test_rank() {
    check_rank();
}

#[test]
fn order_test_rank() {
    check_rank();
}

#[test]
fn order_test_test_rank() {
    check_rank();
}

#[test]
fn rank_doubles_the_averaged_rank() {
    assert_eq!(rank(&[10, 20, 20, 30]), vec![2, 5, 5, 8]);
    assert_eq!(rank(&[]), Vec::<usize>::new());
    assert_eq!(rank(&[42]), vec![2]);
}

#[test]
fn rank_follows_the_order_of_the_keys_not_of_the_places() {
    assert_eq!(rank(&[30, 10, 20]), vec![6, 2, 4]);
    assert_eq!(rank(&[5, 4, 3, 2, 1]), vec![10, 8, 6, 4, 2]);
    assert_eq!(rank(&[i64::MAX, i64::MIN, 0]), vec![6, 2, 4]);
}

#[test]
fn rank_averages_every_tied_block() {
    // all tied: every rank is (1 + 2 + 3 + 4 + 5) / 5 = 3
    assert_eq!(rank(&[7, 7, 7, 7, 7]), vec![6, 6, 6, 6, 6]);
    // two blocks: {1, 1, 1} share rank 2, {9, 9} share rank 4.5
    assert_eq!(rank(&[9, 1, 1, 9, 1]), vec![9, 4, 4, 9, 4]);
    // ties apart from each other
    assert_eq!(rank(&[2, 1, 2, 3, 2]), vec![6, 2, 6, 10, 6]);
}

#[test]
fn ranks_add_up_to_the_triangular_number() {
    let data: Vec<i64> = vec![3, -1, 4, 1, -5, 9, 2, 6, 5, 3, 5, 8, 9, 7, 9, 3, 2, 3, 8, 4];
    let n = data.len();
    let doubled: usize = rank(&data).iter().sum();
    assert_eq!(doubled, n * (n + 1));
}

#[test]
fn smaller_keys_rank_lower_and_equal_keys_rank_equal() {
    let data: Vec<i64> = vec![8, 3, 8, -2, 3, 11, 0, 3];
    let ranks = rank(&data);
    for i in 0..data.len() {
        assert!(2 <= ranks[i] && ranks[i] <= 2 * data.len());
        for j in 0..data.len() {
            if data[i] < data[j] {
                assert!(ranks[i] < ranks[j]);
            }
            if data[i] == data[j] {
                assert_eq!(ranks[i], ranks[j]);
            }
        }
    }
}

#[test]
fn sort_key_is_the_signed_magnitude() {
    assert_eq!(sort_key(0), 0);
    assert_eq!(sort_key(1), 1);
    assert_eq!(sort_key(SIGN_BIT), 0);
    assert_eq!(sort_key(SIGN_BIT + 1), -1);
    assert_eq!(sort_key(u64::MAX), -i64::MAX);
    assert_eq!(sort_key(SIGN_BIT - 1), i64::MAX);
}

#[test]
fn sort_keys_order_doubles_as_their_values_do() {
    let values = [
        f64::NEG_INFINITY,
        -1.0e300,
        -2.5,
        -1.0,
        -f64::MIN_POSITIVE,
        -5.0e-324,
        0.0,
        5.0e-324,
        f64::MIN_POSITIVE,
        0.1,
        1.0,
        2.5,
        1.0e300,
        f64::INFINITY,
    ];
    let keys = keys(&values);
    for i in 0..values.len() {
        for j in 0..values.len() {
            assert_eq!(values[i] < values[j], keys[i] < keys[j]);
            assert_eq!(values[i] == values[j], keys[i] == keys[j]);
        }
    }
    assert_eq!(sort_key((-0.0f64).to_bits()), sort_key(0.0f64.to_bits()));
}

#[test]
fn spearman_ranks_of_a_monotone_sample_match() {
    let x = [1.0, 2.0, 3.0, 4.0, 5.0];
    let y = [1.0, 4.0, 9.0, 16.0, 25.0];
    assert_eq!(ranks(&x), ranks(&y));
    let down = [5.0, 4.0, 3.0, 2.0, 1.0];
    assert_eq!(ranks(&down), vec![5.0, 4.0, 3.0, 2.0, 1.0]);
}

#[test]
fn mode_is_the_first_place_of_the_most_frequent_key() {
    assert_eq!(mode(&[1, 2, 2, 3]), Some(1));
    assert_eq!(mode(&[5, 1, 5, 1, 5]), Some(0));
    assert_eq!(mode(&[9, 9, 9]), Some(0));
    assert_eq!(mode(&[4, 8, 15, 16, 23, 42, 8]), Some(1));
}

#[test]
fn mode_of_distinct_keys_is_none() {
    assert_eq!(mode(&[]), None);
    assert_eq!(mode(&[7]), None);
    assert_eq!(mode(&[3, 1, 2]), None);
    assert_eq!(mode(&[i64::MIN, i64::MAX, 0]), None);
}

#[test]
fn mode_prefers_the_smaller_key_among_equally_frequent_ones() {
    // 7 and 3 both occur twice; 3 is smaller and first occurs at place 2
    assert_eq!(mode(&[7, 7, 3, 3]), Some(2));
    assert_eq!(mode(&[3, 7, 7, 3]), Some(0));
    // 2 occurs three times and beats the smaller 1, which occurs twice
    assert_eq!(mode(&[1, 2, 1, 2, 2]), Some(1));
}

#[test]
fn mode_of_doubles_finds_the_observation_again() {
    let data = [1.0, 2.0, 2.0, 3.0, 3.0, 3.0];
    assert_eq!(mode(&keys(&data)).map(|place| data[place]), Some(3.0));
    let distinct = [1.0, 2.0, 3.0];
    assert_eq!(mode(&keys(&distinct)), None);
    let zeros = [-0.0, 1.0, 0.0];
    assert_eq!(mode(&keys(&zeros)), Some(0));
}

#[test]
fn sorted_places_sort_the_sample() {
    assert_eq!(sorted_places(&[30, 10, 20]), vec![1, 2, 0]);
    assert_eq!(sorted_places(&[]), Vec::<usize>::new());
    assert_eq!(sorted_places(&[5]), vec![0]);
    assert_eq!(sorted_places(&[1, 2, 3, 4]), vec![0, 1, 2, 3]);
    assert_eq!(sorted_places(&[4, 3, 2, 1]), vec![3, 2, 1, 0]);
}

#[test]
fn sorted_places_keep_tied_observations_in_their_order() {
    assert_eq!(sorted_places(&[2, 1, 2, 1, 2]), vec![1, 3, 0, 2, 4]);
    assert_eq!(sorted_places(&[7, 7, 7]), vec![0, 1, 2]);
}

#[test]
fn sorted_places_list_every_place_once() {
    let data: Vec<i64> = (0..200).map(|i| (i * 7919) % 31 - 15).collect();
    let places = sorted_places(&data);
    let mut seen = vec![false; data.len()];
    for &place in &places {
        assert!(!seen[place]);
        seen[place] = true;
    }
    assert!(seen.iter().all(|&s| s));
    for pair in places.windows(2) {
        let (a, b) = (pair[0], pair[1]);
        assert!(data[a] < data[b] || (data[a] == data[b] && a < b));
    }
}

#[test]
fn sorted_doubles_come_out_in_order() {
    let data = [2.5, -1.0, 0.0, 7.25, -3.5, 2.5];
    let order: Vec<f64> = sorted_places(&keys(&data)).iter().map(|&place| data[place]).collect();
    assert_eq!(order, vec![-3.5, -1.0, 0.0, 2.5, 2.5, 7.25]);
}

/// The mode of a sample of doubles, found again at the place that the
/// library gives; not a number where there is none.
fn float_mode(data: &[f64]) -> f64 {
    if data.iter().any(|v| v.is_nan()) {
        return f64::NAN;
    }
    match mode(&keys(data)) {
        Some(place) => data[place],
        None => f64::NAN,
    }
}

fn check_mode_function() {
    assert!(float_mode(&[]).is_nan());
    assert_eq!(float_mode(&[1.0, 2.0, 2.0, 3.0]), 2.0);
    assert!(float_mode(&[1.0, 2.0, 3.0, 4.0]).is_nan());
    assert_eq!(float_mode(&[1.0, 1.0, 2.0, 2.0, 3.0]), 1.0);
}

#[test]
fn stats_test_mode_function() {
    check_mode_function();
}

#[test]
fn order_test_mode_function() {
    check_mode_function();
}

#[test]
fn order_test_test_mode_function() {
    check_mode_function();
}
