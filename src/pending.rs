use vstd::prelude::*;
use vstd::seq_lib::{lemma_multiset_commutative, to_multiset_build};

verus! {

/// A query time paired with the index of the result that it adds to, so that
/// results keep the queries' order after the queries are sorted by time.
#[derive(Clone, Copy)]
pub struct PendingQuery {
    /// The time being queried.
    pub time: u64,
    /// The index of the result where this query's shares are added up.
    pub output_idx: usize,
}

/// The times never decrease along `s`.
pub open spec fn sorted_by_time(s: Seq<PendingQuery>) -> bool {
    forall|i: int, j: int| 0 <= i <= j < s.len() ==> #[trigger] s[i].time <= #[trigger] s[j].time
}

/// Merges two sequences sorted by time into one sorted sequence of the same items.
fn merge(a: &Vec<PendingQuery>, b: &Vec<PendingQuery>) -> (r: Vec<PendingQuery>)
    requires
        sorted_by_time(a@),
        sorted_by_time(b@),
    ensures
        sorted_by_time(r@),
        r@.to_multiset() == a@.to_multiset().add(b@.to_multiset()),
{
    broadcast use vstd::seq_lib::group_to_multiset_ensures, vstd::multiset::group_multiset_axioms;

    let mut r: Vec<PendingQuery> = Vec::new();
    let mut i: usize = 0;
    let mut j: usize = 0;
    assert(a@.subrange(0, 0) =~= Seq::<PendingQuery>::empty());
    assert(b@.subrange(0, 0) =~= Seq::<PendingQuery>::empty());
    while i < a.len() || j < b.len()
        invariant
            i <= a.len(),
            j <= b.len(),
            sorted_by_time(a@),
            sorted_by_time(b@),
            sorted_by_time(r@),
            r@.to_multiset() == a@.subrange(0, i as int).to_multiset().add(
                b@.subrange(0, j as int).to_multiset(),
            ),
            r@.len() > 0 && i < a.len() ==> r@.last().time <= a@[i as int].time,
            r@.len() > 0 && j < b.len() ==> r@.last().time <= b@[j as int].time,
        decreases a.len() + b.len() - i - j,
    {
        if j >= b.len() || (i < a.len() && a[i].time <= b[j].time) {
            let item = a[i];
            proof {
                let done_a = a@.subrange(0, i as int);
                let done_b = b@.subrange(0, j as int);
                assert(a@.subrange(0, i + 1) =~= done_a.push(item));
                to_multiset_build(done_a, item);
                to_multiset_build(r@, item);
                assert(done_a.push(item).to_multiset().add(done_b.to_multiset()) =~= done_a.to_multiset().add(
                    done_b.to_multiset(),
                ).insert(item));
            }
            r.push(item);
            i = i + 1;
        } else {
            let item = b[j];
            proof {
                let done_a = a@.subrange(0, i as int);
                let done_b = b@.subrange(0, j as int);
                assert(b@.subrange(0, j + 1) =~= done_b.push(item));
                to_multiset_build(done_b, item);
                to_multiset_build(r@, item);
                assert(done_a.to_multiset().add(done_b.push(item).to_multiset()) =~= done_a.to_multiset().add(
                    done_b.to_multiset(),
                ).insert(item));
            }
            r.push(item);
            j = j + 1;
        }
    }
    assert(a@.subrange(0, a.len() as int) =~= a@);
    assert(b@.subrange(0, b.len() as int) =~= b@);
    r
}

/// Sorts `v[lo..hi]` by time into a new vector.
fn merge_sort(v: &Vec<PendingQuery>, lo: usize, hi: usize) -> (r: Vec<PendingQuery>)
    requires
        lo <= hi <= v.len(),
    ensures
        sorted_by_time(r@),
        r@.to_multiset() == v@.subrange(lo as int, hi as int).to_multiset(),
    decreases hi - lo,
{
    if hi - lo <= 1 {
        let mut r: Vec<PendingQuery> = Vec::new();
        if lo < hi {
            r.push(v[lo]);
        }
        assert(r@ =~= v@.subrange(lo as int, hi as int));
        r
    } else {
        let mid = lo + (hi - lo) / 2;
        let left = merge_sort(v, lo, mid);
        let right = merge_sort(v, mid, hi);
        proof {
            let whole = v@.subrange(lo as int, hi as int);
            assert(whole =~= v@.subrange(lo as int, mid as int) + v@.subrange(mid as int, hi as int));
            lemma_multiset_commutative(
                v@.subrange(lo as int, mid as int),
                v@.subrange(mid as int, hi as int),
            );
        }
        merge(&left, &right)
    }
}

/// Sorts pending queries by time; queries with equal times may come in any order.
pub fn sort_by_time(v: &Vec<PendingQuery>) -> (r: Vec<PendingQuery>)
    ensures
        sorted_by_time(r@),
        r@.to_multiset() == v@.to_multiset(),
{
    assert(v@.subrange(0, v.len() as int) =~= v@);
    merge_sort(v, 0, v.len())
}

/// The first position in `s` whose time is not less than `threshold`: every
/// time before it is less, every time from it on is not.
pub fn partition_point(s: &Vec<PendingQuery>, threshold: u64) -> (r: usize)
    requires
        sorted_by_time(s@),
    ensures
        r <= s.len(),
        forall|x: int| 0 <= x < r ==> #[trigger] s@[x].time < threshold,
        forall|x: int| r <= x < s.len() ==> #[trigger] s@[x].time >= threshold,
{
    let mut lo: usize = 0;
    let mut hi: usize = s.len();
    while lo < hi
        invariant
            lo <= hi <= s.len(),
            sorted_by_time(s@),
            forall|x: int| 0 <= x < lo ==> #[trigger] s@[x].time < threshold,
            forall|x: int| hi <= x < s.len() ==> #[trigger] s@[x].time >= threshold,
        decreases hi - lo,
    {
        let mid = lo + (hi - lo) / 2;
        if s[mid].time < threshold {
            assert(forall|x: int| 0 <= x <= mid ==> s@[x].time <= #[trigger] s@[mid as int].time);
            lo = mid + 1;
        } else {
            hi = mid;
        }
    }
    lo
}

} // verus!
