use query_problem::{query_binsearch, query_naive, Order, Query, QueryResult};

fn order(created_at: u64, executed_or_cancelled_at: u64, number_of_shares: u64) -> Order {
    Order { created_at, executed_or_cancelled_at, number_of_shares }
}

fn queries(times: &[u64]) -> Vec<Query> {
    times.iter().map(|&time| Query { time }).collect()
}

fn shares(results: &[QueryResult]) -> Vec<u64> {
    results.iter().map(|r| r.outstanding_shares).collect()
}

/// A deterministic pseudo-random sequence, so that the data is the same on every run.
fn next(state: &mut u64) -> u64 {
    *state = state.wrapping_mul(6364136223846793005).wrapping_add(1442695040888963407);
    *state >> 33
}

#[test]
fn boundaries_are_inclusive_at_start_and_exclusive_at_end() {
    let orders = vec![order(5, 10, 3)];
    let qs = queries(&[5, 10, 9]);
    assert_eq!(shares(&query_naive(&orders, &qs)), vec![3, 0, 3]);
    assert_eq!(shares(&query_binsearch(&orders, &qs)), vec![3, 0, 3]);
}

#[test]
fn query_just_before_start_is_excluded() {
    let orders = vec![order(5, 10, 3)];
    let qs = queries(&[4, 0]);
    assert_eq!(shares(&query_naive(&orders, &qs)), vec![0, 0]);
    assert_eq!(shares(&query_binsearch(&orders, &qs)), vec![0, 0]);
}

#[test]
fn no_orders_gives_zero_everywhere() {
    let orders: Vec<Order> = Vec::new();
    let qs = queries(&[0, 7, 7, u64::MAX]);
    assert_eq!(shares(&query_naive(&orders, &qs)), vec![0, 0, 0, 0]);
    assert_eq!(shares(&query_binsearch(&orders, &qs)), vec![0, 0, 0, 0]);
}

#[test]
fn no_queries_gives_no_results() {
    let orders = vec![order(1, 4, 2), order(0, 100, 9)];
    let qs: Vec<Query> = Vec::new();
    assert!(query_naive(&orders, &qs).is_empty());
    assert!(query_binsearch(&orders, &qs).is_empty());
}

#[test]
fn overlapping_orders_add_up() {
    let orders = vec![order(2, 8, 4), order(7, 12, 6)];
    let qs = queries(&[7, 20, 3, 11]);
    assert_eq!(shares(&query_naive(&orders, &qs)), vec![10, 0, 4, 6]);
    assert_eq!(shares(&query_binsearch(&orders, &qs)), vec![10, 0, 4, 6]);
}

#[test]
fn duplicate_query_times_get_independent_equal_results() {
    let orders = vec![order(1, 6, 5)];
    let qs = queries(&[3, 3]);
    assert_eq!(shares(&query_naive(&orders, &qs)), vec![5, 5]);
    assert_eq!(shares(&query_binsearch(&orders, &qs)), vec![5, 5]);
}

#[test]
fn results_follow_the_order_of_unsorted_queries() {
    let orders = vec![order(0, 10, 1), order(10, 20, 2), order(20, 30, 4)];
    let qs = queries(&[25, 5, 15, 25, 0, 30, 19]);
    let expected = vec![4, 1, 2, 4, 1, 0, 2];
    assert_eq!(shares(&query_naive(&orders, &qs)), expected);
    assert_eq!(shares(&query_binsearch(&orders, &qs)), expected);
}

#[test]
fn engines_agree_on_generated_data() {
    let mut state: u64 = 42;
    let mut orders = Vec::new();
    for _ in 0..300 {
        let start = next(&mut state) % 1000;
        let end = start + 1 + next(&mut state) % 100;
        orders.push(order(start, end, 1 + next(&mut state) % 50_000));
    }
    let qs: Vec<Query> = (0..500).map(|_| Query { time: next(&mut state) % 1100 }).collect();
    let naive = query_naive(&orders, &qs);
    let binsearch = query_binsearch(&orders, &qs);
    assert_eq!(naive.len(), qs.len());
    assert_eq!(naive, binsearch);
    for (q, r) in qs.iter().zip(naive.iter()) {
        let expected: u64 = orders
            .iter()
            .filter(|o| o.created_at <= q.time && q.time < o.executed_or_cancelled_at)
            .map(|o| o.number_of_shares)
            .sum();
        assert_eq!(r.outstanding_shares, expected);
    }
}

#[test]
fn calling_twice_gives_the_same_results() {
    let orders = vec![order(3, 9, 7), order(1, 4, 2), order(8, 15, 11)];
    let qs = queries(&[8, 3, 14, 1, 9]);
    assert_eq!(query_naive(&orders, &qs), query_naive(&orders, &qs));
    assert_eq!(query_binsearch(&orders, &qs), query_binsearch(&orders, &qs));
    assert_eq!(shares(&query_binsearch(&orders, &qs)), vec![18, 9, 11, 2, 11]);
}

#[test]
fn totals_may_reach_the_largest_u64() {
    let orders = vec![order(0, u64::MAX, u64::MAX - 1), order(u64::MAX - 1, u64::MAX, 1)];
    let qs = queries(&[u64::MAX - 1, u64::MAX, 0]);
    let expected = vec![u64::MAX, 0, u64::MAX - 1];
    assert_eq!(shares(&query_naive(&orders, &qs)), expected);
    assert_eq!(shares(&query_binsearch(&orders, &qs)), expected);
}

#[test]
fn inverted_order_covers_nothing() {
    let orders = vec![order(10, 5, 3), order(4, 4, 8), order(0, 20, 1)];
    let qs = queries(&[4, 5, 7, 10]);
    assert_eq!(shares(&query_naive(&orders, &qs)), vec![1, 1, 1, 1]);
    assert_eq!(shares(&query_binsearch(&orders, &qs)), vec![1, 1, 1, 1]);
}

#[test]
fn default_result_is_zero() {
    assert_eq!(QueryResult::default().outstanding_shares, 0);
}
