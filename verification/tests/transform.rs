use stat_core::cumreduce;

fn check_cumreduce() {
    let data = [1.0, 2.0, 3.0];

    // Cumulative sum
    let cum_sum = cumreduce(&data, 0.0, |acc, x| acc + x);
    assert_eq!(cum_sum, vec![1.0, 3.0, 6.0]);

    // Cumulative product
    let cum_prod = cumreduce(&data, 1.0, |acc, x| acc * x);
    assert_eq!(cum_prod, vec![1.0, 2.0, 6.0]);

    // Cumulative sum of squares
    let cum_sq = cumreduce(&data, 0.0, |acc, x| acc + x * x);
    assert_eq!(cum_sq, vec![1.0, 5.0, 14.0]);

    // Empty data
    assert_eq!(cumreduce(&[], 0.0, |acc, x| acc + x), Vec::<f64>::new());
}

#[test]
fn stats_test_cumreduce() {
    check_cumreduce();
}

#[test]
fn transform_test_cumreduce() {
    check_cumreduce();
}

#[test]
fn cumreduce_threads_the_running_value() {
    let data = [3u32, 1, 4, 1, 5];
    let trace = cumreduce(&data, 10u32, |acc, x| acc * 2 + x);
    assert_eq!(trace, vec![23, 47, 98, 197, 399]);
    let maxima = cumreduce(&data, 0u32, |acc, x| if x > acc { x } else { acc });
    assert_eq!(maxima, vec![3, 3, 4, 4, 5]);
}

#[test]
fn cumreduce_of_one_element_uses_the_seed() {
    assert_eq!(cumreduce(&[7i64], -2, |acc, x| acc - x), vec![-9]);
}
