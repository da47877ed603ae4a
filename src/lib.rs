use vstd::prelude::*;

mod pending;

use pending::{partition_point, sort_by_time, sorted_by_time, PendingQuery};

verus! {

/// An order that holds `number_of_shares` over the half-open time interval
/// `[created_at, executed_or_cancelled_at)`.
#[derive(Clone, Copy, Debug)]
pub struct Order {
    /// Time the order was created (inclusive).
    pub created_at: u64,
    /// Time the order ended (exclusive).
    pub executed_or_cancelled_at: u64,
    /// Number of shares in the order.
    pub number_of_shares: u64,
}

/// A query for the number of outstanding shares at a particular time.
#[derive(Clone, Copy, Debug)]
pub struct Query {
    /// The time to query.
    pub time: u64,
}

/// The answer to one query.
#[derive(Clone, Copy, Debug, PartialEq, Eq, Structural)]
pub struct QueryResult {
    /// Number of outstanding shares at the time of the query.
    pub outstanding_shares: u64,
}

impl Default for QueryResult {
    fn default() -> (r: Self)
        ensures
            r.outstanding_shares == 0,
    {
        QueryResult { outstanding_shares: 0 }
    }
}

/// Whether the order is active at time `t`: its start is inclusive, its end exclusive.
pub open spec fn covers(o: Order, t: u64) -> bool {
    o.created_at <= t < o.executed_or_cancelled_at
}

/// The sum of the shares of all orders that are active at time `t`.
pub open spec fn outstanding(orders: Seq<Order>, t: u64) -> nat
    decreases orders.len(),
{
    if orders.len() == 0 {
        0
    } else {
        outstanding(orders.drop_last(), t) + if covers(orders.last(), t) {
            orders.last().number_of_shares as nat
        } else {
            0nat
        }
    }
}

/// `results` answers `queries` over `orders`: one result per query, in the
/// queries' order, each the number of shares outstanding at that query's time.
pub open spec fn answers(orders: Seq<Order>, queries: Seq<Query>, results: Seq<QueryResult>) -> bool {
    &&& results.len() == queries.len()
    &&& forall|i: int|
        0 <= i < queries.len() ==> #[trigger] results[i].outstanding_shares == outstanding(
            orders,
            queries[i].time,
        )
}

/// No query's total exceeds what a `u64` holds. Both engines add shares in
/// `u64` without wrapping or saturating, and ask this of their inputs.
pub open spec fn totals_fit(orders: Seq<Order>, queries: Seq<Query>) -> bool {
    forall|i: int| 0 <= i < queries.len() ==> outstanding(orders, #[trigger] queries[i].time) <= u64::MAX
}

/// Taking more orders never lowers the total at a time.
proof fn lemma_outstanding_prefix(orders: Seq<Order>, j: int, t: u64)
    requires
        0 <= j <= orders.len(),
    ensures
        outstanding(orders.subrange(0, j), t) <= outstanding(orders, t),
    decreases orders.len() - j,
{
    if j < orders.len() {
        lemma_outstanding_prefix(orders, j + 1, t);
        assert(orders.subrange(0, j + 1).drop_last() =~= orders.subrange(0, j));
    } else {
        assert(orders.subrange(0, j) =~= orders);
    }
}

/// Answers every query by summing, for each query, the shares of every order
/// that covers its time.
pub fn query_naive(orders: &[Order], queries: &[Query]) -> (results: Vec<QueryResult>)
    requires
        totals_fit(orders@, queries@),
    ensures
        answers(orders@, queries@, results@),
{
    let mut results: Vec<QueryResult> = Vec::with_capacity(queries.len());
    let mut i: usize = 0;
    while i < queries.len()
        invariant
            i <= queries.len(),
            totals_fit(orders@, queries@),
            results@.len() == i,
            forall|k: int|
                0 <= k < i ==> #[trigger] results@[k].outstanding_shares == outstanding(
                    orders@,
                    queries@[k].time,
                ),
        decreases queries.len() - i,
    {
        let time = queries[i].time;
        let mut result = QueryResult::default();
        let mut j: usize = 0;
        while j < orders.len()
            invariant
                j <= orders.len(),
                time == queries@[i as int].time,
                outstanding(orders@, time) <= u64::MAX,
                result.outstanding_shares == outstanding(orders@.subrange(0, j as int), time),
            decreases orders.len() - j,
        {
            let order = &orders[j];
            proof {
                assert(orders@.subrange(0, j + 1).drop_last() =~= orders@.subrange(0, j as int));
                lemma_outstanding_prefix(orders@, j + 1, time);
            }
            if order.created_at <= time && time < order.executed_or_cancelled_at {
                result.outstanding_shares = result.outstanding_shares + order.number_of_shares;
            }
            j = j + 1;
        }
        assert(orders@.subrange(0, orders.len() as int) =~= orders@);
        results.push(result);
        i = i + 1;
    }
    results
}

/// What sorting the pending queries keeps: each sorted entry carries its
/// query's time and a valid result index, and each result index sits at
/// exactly one sorted position, `pos[k]`.
proof fn lemma_sorted_positions(
    queries: Seq<Query>,
    pending: Seq<PendingQuery>,
    sorted: Seq<PendingQuery>,
) -> (pos: Seq<int>)
    requires
        queries.len() <= usize::MAX,
        pending.len() == queries.len(),
        forall|x: int|
            0 <= x < pending.len() ==> #[trigger] pending[x] == (PendingQuery {
                time: queries[x].time,
                output_idx: x as usize,
            }),
        sorted.to_multiset() == pending.to_multiset(),
    ensures
        sorted.len() == queries.len(),
        pos.len() == queries.len(),
        forall|x: int|
            0 <= x < sorted.len() ==> {
                &&& (#[trigger] sorted[x]).output_idx < queries.len()
                &&& sorted[x].time == queries[sorted[x].output_idx as int].time
                &&& pos[sorted[x].output_idx as int] == x
            },
        forall|k: int|
            0 <= k < queries.len() ==> 0 <= #[trigger] pos[k] < sorted.len() && sorted[pos[k]].output_idx
                == k,
{
    broadcast use vstd::seq_lib::group_to_multiset_ensures;

    assert(sorted.len() == pending.len()) by {
        sorted.to_multiset_ensures();
        pending.to_multiset_ensures();
    }
    assert forall|x: int| 0 <= x < sorted.len() implies pending.contains(#[trigger] sorted[x]) by {
        assert(sorted.contains(sorted[x]));
        assert(sorted.to_multiset().count(sorted[x]) > 0);
    }
    assert forall|x: int|
        0 <= x < sorted.len() implies (#[trigger] sorted[x]).output_idx < queries.len()
        && sorted[x].time == queries[sorted[x].output_idx as int].time by {
        assert(pending.contains(sorted[x]));
        let k = choose|k: int| 0 <= k < pending.len() && pending[k] == sorted[x];
        assert(pending[k] == sorted[x]);
    }
    assert(pending.no_duplicates()) by {
        assert forall|a: int, b: int|
            0 <= a < pending.len() && 0 <= b < pending.len() && a != b implies pending[a]
            != pending[b] by {
            assert(pending[a].output_idx == a);
            assert(pending[b].output_idx == b);
        }
    }
    pending.lemma_multiset_has_no_duplicates();
    sorted.lemma_multiset_has_no_duplicates_conv();
    let pos = Seq::new(
        queries.len(),
        |k: int| choose|x: int| 0 <= x < sorted.len() && (#[trigger] sorted[x]).output_idx == k,
    );
    assert forall|k: int| 0 <= k < queries.len() implies 0 <= #[trigger] pos[k] < sorted.len()
        && sorted[pos[k]].output_idx == k by {
        assert(pending.contains(pending[k]));
        assert(pending.to_multiset().count(pending[k]) > 0);
        assert(sorted.contains(pending[k]));
        let x = choose|x: int| 0 <= x < sorted.len() && sorted[x] == pending[k];
        assert(sorted[x].output_idx == k);
    }
    assert forall|x: int| 0 <= x < sorted.len() implies pos[(#[trigger] sorted[x]).output_idx as int]
        == x by {
        let k = sorted[x].output_idx as int;
        let y = pos[k];
        assert(sorted[y].output_idx == k);
        assert(sorted[y] == sorted[x]);
    }
    pos
}

/// Answers every query by sorting the queries by time once, then, for each
/// order, finding by binary search the run of sorted queries that it covers
/// and adding its shares to exactly those queries' results.
pub fn query_binsearch(orders: &[Order], queries: &[Query]) -> (results: Vec<QueryResult>)
    requires
        totals_fit(orders@, queries@),
    ensures
        answers(orders@, queries@, results@),
{
    let n = queries.len();
    let mut results: Vec<QueryResult> = Vec::with_capacity(n);
    let mut pending: Vec<PendingQuery> = Vec::with_capacity(n);
    let mut k: usize = 0;
    while k < n
        invariant
            k <= n,
            n == queries.len(),
            results@.len() == k,
            pending@.len() == k,
            forall|x: int| 0 <= x < k ==> (#[trigger] results@[x]).outstanding_shares == 0,
            forall|x: int|
                0 <= x < k ==> #[trigger] pending@[x] == (PendingQuery {
                    time: queries@[x].time,
                    output_idx: x as usize,
                }),
        decreases n - k,
    {
        results.push(QueryResult::default());
        pending.push(PendingQuery { time: queries[k].time, output_idx: k });
        k = k + 1;
    }
    let sorted = sort_by_time(&pending);
    let ghost pos = lemma_sorted_positions(queries@, pending@, sorted@);
    assert forall|x: int| 0 <= x < n implies (#[trigger] results@[x]).outstanding_shares
        == outstanding(orders@.subrange(0, 0), queries@[x].time) by {
        assert(orders@.subrange(0, 0).len() == 0);
    }
    let mut j: usize = 0;
    while j < orders.len()
        invariant
            j <= orders.len(),
            n == queries.len(),
            n == sorted@.len(),
            results@.len() == n,
            totals_fit(orders@, queries@),
            sorted_by_time(sorted@),
            pos.len() == n,
            forall|x: int|
                0 <= x < n ==> {
                    &&& (#[trigger] sorted@[x]).output_idx < n
                    &&& sorted@[x].time == queries@[sorted@[x].output_idx as int].time
                    &&& pos[sorted@[x].output_idx as int] == x
                },
            forall|k: int| 0 <= k < n ==> 0 <= #[trigger] pos[k] < n && sorted@[pos[k]].output_idx == k,
            forall|x: int|
                0 <= x < n ==> (#[trigger] results@[x]).outstanding_shares == outstanding(
                    orders@.subrange(0, j as int),
                    queries@[x].time,
                ),
        decreases orders.len() - j,
    {
        let order = orders[j];
        let first = partition_point(&sorted, order.created_at);
        let last = partition_point(&sorted, order.executed_or_cancelled_at);
        let ghost done = orders@.subrange(0, j as int);
        proof {
            assert(orders@.subrange(0, j + 1).drop_last() =~= done);
            assert(orders@.subrange(0, j + 1).last() == order);
        }
        let mut cur: usize = first;
        while cur < last
            invariant
                first <= cur,
                cur <= last || cur == first,
                last <= n,
                n == queries.len(),
                n == sorted@.len(),
                results@.len() == n,
                totals_fit(orders@, queries@),
                j < orders.len(),
                order == orders@[j as int],
                done == orders@.subrange(0, j as int),
                orders@.subrange(0, j + 1).drop_last() == done,
                orders@.subrange(0, j + 1).last() == order,
                pos.len() == n,
                forall|x: int| 0 <= x < first ==> #[trigger] sorted@[x].time < order.created_at,
                forall|x: int| first <= x < n ==> #[trigger] sorted@[x].time >= order.created_at,
                forall|x: int|
                    0 <= x < last ==> #[trigger] sorted@[x].time < order.executed_or_cancelled_at,
                forall|x: int|
                    last <= x < n ==> #[trigger] sorted@[x].time >= order.executed_or_cancelled_at,
                forall|x: int|
                    0 <= x < n ==> {
                        &&& (#[trigger] sorted@[x]).output_idx < n
                        &&& sorted@[x].time == queries@[sorted@[x].output_idx as int].time
                        &&& pos[sorted@[x].output_idx as int] == x
                    },
                forall|k: int| 0 <= k < n ==> 0 <= #[trigger] pos[k] < n && sorted@[pos[k]].output_idx == k,
                forall|x: int|
                    0 <= x < n ==> (#[trigger] results@[x]).outstanding_shares == outstanding(
                        done,
                        queries@[x].time,
                    ) + if first <= pos[x] < cur {
                        order.number_of_shares as nat
                    } else {
                        0nat
                    },
            decreases last - cur,
        {
            let idx = sorted[cur].output_idx;
            let current = results[idx].outstanding_shares;
            proof {
                let t = queries@[idx as int].time;
                assert(pos[idx as int] == cur);
                assert(covers(order, t));
                lemma_outstanding_prefix(orders@, j + 1, t);
                assert(outstanding(orders@, queries@[idx as int].time) <= u64::MAX);
            }
            results.set(idx, QueryResult { outstanding_shares: current + order.number_of_shares });
            cur = cur + 1;
        }
        proof {
            assert forall|x: int| 0 <= x < n implies (#[trigger] results@[x]).outstanding_shares
                == outstanding(orders@.subrange(0, j + 1), queries@[x].time) by {
                let p = pos[x];
                assert(sorted@[p].output_idx == x);
                assert(sorted@[p].time == queries@[x].time);
                if covers(order, queries@[x].time) {
                    assert(first <= p);
                    assert(p < last);
                } else {
                    assert(!(first <= p < cur));
                }
            }
        }
        j = j + 1;
    }
    assert(orders@.subrange(0, orders.len() as int) =~= orders@);
    results
}

/// The answer to a set of queries is unique: any two result sequences that
/// answer the same queries over the same orders are equal. Hence
/// `query_naive` and `query_binsearch` return equal results on the same
/// inputs, and calling either one again on those inputs returns the same
/// results.
pub proof fn lemma_answers_unique(
    orders: Seq<Order>,
    queries: Seq<Query>,
    first: Seq<QueryResult>,
    second: Seq<QueryResult>,
)
    requires
        answers(orders, queries, first),
        answers(orders, queries, second),
    ensures
        first == second,
{
    assert forall|i: int| 0 <= i < first.len() implies #[trigger] first[i] == second[i] by {
        assert(first[i].outstanding_shares == second[i].outstanding_shares);
    }
    assert(first =~= second);
}

/// With no orders, every query's result is zero.
pub proof fn lemma_no_orders(queries: Seq<Query>, results: Seq<QueryResult>)
    requires
        answers(Seq::<Order>::empty(), queries, results),
    ensures
        forall|i: int| 0 <= i < results.len() ==> (#[trigger] results[i]).outstanding_shares == 0,
{
    assert forall|i: int| 0 <= i < results.len() implies (#[trigger] results[i]).outstanding_shares
        == 0 by {
        assert(results[i].outstanding_shares == outstanding(Seq::<Order>::empty(), queries[i].time));
    }
}

/// With no queries, there are no results.
pub proof fn lemma_no_queries(orders: Seq<Order>, results: Seq<QueryResult>)
    requires
        answers(orders, Seq::<Query>::empty(), results),
    ensures
        results.len() == 0,
{
}

/// Queries with the same time get the same result, each in its own place.
pub proof fn lemma_equal_times_equal_results(
    orders: Seq<Order>,
    queries: Seq<Query>,
    results: Seq<QueryResult>,
    i: int,
    j: int,
)
    requires
        answers(orders, queries, results),
        0 <= i < queries.len(),
        0 <= j < queries.len(),
        queries[i].time == queries[j].time,
    ensures
        results[i] == results[j],
{
    assert(results[i].outstanding_shares == results[j].outstanding_shares);
}

} // verus!
