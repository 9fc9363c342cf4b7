//! Sorting the rows of a table by keys that are compared row against row.
//! Rows with equal keys keep the order in which they came.

use vstd::prelude::*;
use vstd::relations::{sorted_by, total_ordering};
use vstd::seq_lib::{lemma_multiset_commutative, lemma_sorted_unique};

verus! {

/// A table of rows that can be compared with one another.
pub trait Keys {
    /// The number of rows.
    spec fn rows(&self) -> nat;

    /// Whether row `i` stands at or before row `j`.
    spec fn leq(&self) -> spec_fn(usize, usize) -> bool;

    /// `leq` is a total order of the rows.
    proof fn lemma_total(&self)
        ensures
            total_ordering(self.leq()),
    ;

    /// The number of rows.
    fn count(&self) -> (n: usize)
        ensures
            n == self.rows(),
    ;

    /// Whether row `i` stands at or before row `j`.
    fn at_or_before(&self, i: usize, j: usize) -> (r: bool)
        requires
            i < self.rows(),
            j < self.rows(),
        ensures
            r == (self.leq())(i, j),
    ;
}

/// The rows `lo..hi` in the order in which they came.
pub open spec fn input_order(lo: int, hi: int) -> Seq<usize> {
    Seq::new((hi - lo) as nat, |k: int| (lo + k) as usize)
}

/// The `n` rows of a table in ascending order of `leq`.
pub open spec fn sorted_order(n: nat, leq: spec_fn(usize, usize) -> bool) -> Seq<usize> {
    input_order(0, n as int).sort_by(leq)
}

/// The sorted order lists every row once, each row at or before the rows
/// that follow it.
pub proof fn lemma_sorted_order(n: nat, leq: spec_fn(usize, usize) -> bool)
    requires
        n <= usize::MAX,
        total_ordering(leq),
    ensures
        sorted_order(n, leq).len() == n,
        sorted_by(sorted_order(n, leq), leq),
        sorted_order(n, leq).no_duplicates(),
        forall|k: int| 0 <= k < n ==> (#[trigger] sorted_order(n, leq)[k]) < n,
        forall|row: usize| row < n ==> sorted_order(n, leq).contains(row),
{
    broadcast use vstd::seq_lib::group_to_multiset_ensures;

    let input = input_order(0, n as int);
    let order = sorted_order(n, leq);
    input.lemma_sort_by_ensures(leq);
    input.to_multiset_ensures();
    order.to_multiset_ensures();
    assert(input.no_duplicates());
    input.lemma_multiset_has_no_duplicates();
    order.lemma_multiset_has_no_duplicates_conv();
    assert forall|k: int| 0 <= k < n implies (#[trigger] order[k]) < n by {
        assert(order.contains(order[k]));
        assert(input.contains(order[k]));
        let at = choose|at: int| 0 <= at < input.len() && input[at] == order[k];
        assert(input[at] == at);
    }
    assert forall|row: usize| row < n implies order.contains(row) by {
        assert(input[row as int] == row);
        assert(input.contains(row));
        assert(input.to_multiset().count(row) > 0);
        assert(order.to_multiset().count(row) > 0);
    }
}

/// The rows of a table, taken in sorted order, are the rows of the table,
/// each as often as the table holds it.
pub proof fn lemma_sorted_rows_are_the_rows<T>(rows: Seq<T>, leq: spec_fn(usize, usize) -> bool)
    requires
        rows.len() <= usize::MAX,
        total_ordering(leq),
    ensures
        Seq::new(rows.len(), |k: int| rows[sorted_order(rows.len(), leq)[k] as int]).to_multiset()
            == rows.to_multiset(),
{
    let n = rows.len();
    let input = input_order(0, n as int);
    let order = sorted_order(n, leq);
    let pick = |row: usize| rows[row as int];
    lemma_sorted_order(n, leq);
    input.lemma_sort_by_ensures(leq);
    lemma_map_keeps_multiset(input, order, pick);
    assert(input.map_values(pick) =~= rows);
    assert(order.map_values(pick) =~= Seq::new(rows.len(), |k: int| rows[order[k] as int]));
}

/// Two lists with the same items, each as often in the one as in the other,
/// still have the same items after every item has been mapped.
pub proof fn lemma_map_keeps_multiset<A, B>(a: Seq<A>, b: Seq<A>, f: spec_fn(A) -> B)
    requires
        a.to_multiset() == b.to_multiset(),
    ensures
        a.map_values(f).to_multiset() == b.map_values(f).to_multiset(),
    decreases a.len(),
{
    broadcast use vstd::seq_lib::group_to_multiset_ensures;

    a.to_multiset_ensures();
    b.to_multiset_ensures();
    if a.len() == 0 {
        assert(b.len() == 0);
        assert(a.map_values(f) =~= b.map_values(f));
    } else {
        let x = a.last();
        assert(a.contains(x));
        assert(a.to_multiset().count(x) > 0);
        assert(b.contains(x));
        let at = choose|at: int| 0 <= at < b.len() && b[at] == x;
        let shorter_a = a.drop_last();
        let shorter_b = b.remove(at);
        assert(shorter_a =~= a.remove(a.len() - 1));
        assert(shorter_a.to_multiset() =~= a.to_multiset().remove(x));
        assert(shorter_b.to_multiset() =~= b.to_multiset().remove(x));
        lemma_map_keeps_multiset(shorter_a, shorter_b, f);
        assert(a.map_values(f) =~= shorter_a.map_values(f).push(f(x)));
        assert(b.map_values(f) =~= shorter_b.map_values(f).insert(at, f(x)));
        vstd::seq_lib::to_multiset_build(shorter_a.map_values(f), f(x));
        vstd::seq_lib::to_multiset_insert(shorter_b.map_values(f), at, f(x));
    }
}

/// Merges two sorted runs of rows into one.
fn merge_runs<K: Keys>(keys: &K, left: &Vec<usize>, right: &Vec<usize>) -> (out: Vec<usize>)
    requires
        sorted_by(left@, keys.leq()),
        sorted_by(right@, keys.leq()),
        forall|a: int| 0 <= a < left@.len() ==> (#[trigger] left@[a]) < keys.rows(),
        forall|a: int| 0 <= a < right@.len() ==> (#[trigger] right@[a]) < keys.rows(),
        left@.len() + right@.len() <= usize::MAX,
    ensures
        sorted_by(out@, keys.leq()),
        out@.to_multiset() == left@.to_multiset().add(right@.to_multiset()),
        forall|a: int| 0 <= a < out@.len() ==> (#[trigger] out@[a]) < keys.rows(),
        out@.len() == left@.len() + right@.len(),
{
    broadcast use vstd::seq_lib::group_to_multiset_ensures;

    let ghost leq = keys.leq();
    proof {
        keys.lemma_total();
    }
    let mut out: Vec<usize> = Vec::new();
    let mut i: usize = 0;
    let mut j: usize = 0;
    while i < left.len() || j < right.len()
        invariant
            leq == keys.leq(),
            total_ordering(leq),
            i <= left@.len(),
            j <= right@.len(),
            out@.len() == i + j,
            sorted_by(left@, leq),
            sorted_by(right@, leq),
            sorted_by(out@, leq),
            forall|a: int| 0 <= a < left@.len() ==> (#[trigger] left@[a]) < keys.rows(),
            forall|a: int| 0 <= a < right@.len() ==> (#[trigger] right@[a]) < keys.rows(),
            forall|a: int| 0 <= a < out@.len() ==> (#[trigger] out@[a]) < keys.rows(),
            forall|a: int, b: int|
                0 <= a < out@.len() && i <= b < left@.len() ==> leq(
                    #[trigger] out@[a],
                    #[trigger] left@[b],
                ),
            forall|a: int, b: int|
                0 <= a < out@.len() && j <= b < right@.len() ==> leq(
                    #[trigger] out@[a],
                    #[trigger] right@[b],
                ),
            out@.to_multiset() == left@.take(i as int).to_multiset().add(
                right@.take(j as int).to_multiset(),
            ),
        decreases left@.len() - i + right@.len() - j,
    {
        let take_left: bool = if i == left.len() {
            false
        } else if j == right.len() {
            true
        } else {
            keys.at_or_before(left[i], right[j])
        };
        let ghost before = out@;
        if take_left {
            let x: usize = left[i];
            out.push(x);
            proof {
                assert(left@.take(i + 1) =~= left@.take(i as int).push(x));
                assert(out@ =~= before.push(x));
                vstd::seq_lib::to_multiset_build(before, x);
                vstd::seq_lib::to_multiset_build(left@.take(i as int), x);
                assert(out@.to_multiset() =~= left@.take(i + 1).to_multiset().add(
                    right@.take(j as int).to_multiset(),
                ));
                assert forall|a: int, b: int|
                    0 <= a < out@.len() && i + 1 <= b < left@.len() implies leq(
                    #[trigger] out@[a],
                    #[trigger] left@[b],
                ) by {
                    if a == before.len() {
                        assert(leq(left@[i as int], left@[b]));
                    } else {
                        assert(leq(before[a], left@[b]));
                    }
                }
                assert forall|a: int, b: int|
                    0 <= a < out@.len() && j <= b < right@.len() implies leq(
                    #[trigger] out@[a],
                    #[trigger] right@[b],
                ) by {
                    if a == before.len() {
                        assert(leq(x, right@[j as int]));
                        if j < b {
                            assert(leq(right@[j as int], right@[b]));
                        }
                    } else {
                        assert(leq(before[a], right@[b]));
                    }
                }
                assert forall|a: int, b: int| 0 <= a < b < out@.len() implies #[trigger] leq(
                    out@[a],
                    out@[b],
                ) by {
                    if b == before.len() {
                        assert(leq(before[a], left@[i as int]));
                    } else {
                        assert(leq(before[a], before[b]));
                    }
                }
            }
            i += 1;
        } else {
            let x: usize = right[j];
            out.push(x);
            proof {
                assert(right@.take(j + 1) =~= right@.take(j as int).push(x));
                assert(out@ =~= before.push(x));
                vstd::seq_lib::to_multiset_build(before, x);
                vstd::seq_lib::to_multiset_build(right@.take(j as int), x);
                assert(out@.to_multiset() =~= left@.take(i as int).to_multiset().add(
                    right@.take(j + 1).to_multiset(),
                ));
                assert forall|a: int, b: int|
                    0 <= a < out@.len() && j + 1 <= b < right@.len() implies leq(
                    #[trigger] out@[a],
                    #[trigger] right@[b],
                ) by {
                    if a == before.len() {
                        assert(leq(right@[j as int], right@[b]));
                    } else {
                        assert(leq(before[a], right@[b]));
                    }
                }
                assert forall|a: int, b: int|
                    0 <= a < out@.len() && i <= b < left@.len() implies leq(
                    #[trigger] out@[a],
                    #[trigger] left@[b],
                ) by {
                    if a == before.len() {
                        assert(leq(x, left@[i as int]));
                        if i < b {
                            assert(leq(left@[i as int], left@[b]));
                        }
                    } else {
                        assert(leq(before[a], left@[b]));
                    }
                }
                assert forall|a: int, b: int| 0 <= a < b < out@.len() implies #[trigger] leq(
                    out@[a],
                    out@[b],
                ) by {
                    if b == before.len() {
                        assert(leq(before[a], right@[j as int]));
                    } else {
                        assert(leq(before[a], before[b]));
                    }
                }
            }
            j += 1;
        }
    }
    proof {
        assert(left@.take(i as int) =~= left@);
        assert(right@.take(j as int) =~= right@);
    }
    out
}

/// Sorts the rows `lo..hi` of a table.
fn sort_range<K: Keys>(keys: &K, lo: usize, hi: usize) -> (out: Vec<usize>)
    requires
        lo <= hi <= keys.rows(),
    ensures
        sorted_by(out@, keys.leq()),
        out@.to_multiset() == input_order(lo as int, hi as int).to_multiset(),
        forall|a: int| 0 <= a < out@.len() ==> (#[trigger] out@[a]) < keys.rows(),
        out@.len() == hi - lo,
    decreases hi - lo,
{
    broadcast use vstd::seq_lib::group_to_multiset_ensures;

    if hi - lo <= 1 {
        let mut out: Vec<usize> = Vec::new();
        if lo < hi {
            out.push(lo);
        }
        proof {
            assert(out@ =~= input_order(lo as int, hi as int));
        }
        out
    } else {
        let mid: usize = lo + (hi - lo) / 2;
        let left = sort_range(keys, lo, mid);
        let right = sort_range(keys, mid, hi);
        let out = merge_runs(keys, &left, &right);
        proof {
            let a = input_order(lo as int, mid as int);
            let b = input_order(mid as int, hi as int);
            assert(a + b =~= input_order(lo as int, hi as int));
            lemma_multiset_commutative(a, b);
        }
        out
    }
}

/// The rows of a table in ascending order of their keys, rows with equal
/// keys in the order in which they came.
pub fn sort_indices<K: Keys>(keys: &K) -> (order: Vec<usize>)
    ensures
        order@ == sorted_order(keys.rows(), keys.leq()),
        order@.len() == keys.rows(),
        keys.rows() <= usize::MAX,
{
    let n: usize = keys.count();
    let order = sort_range(keys, 0, n);
    proof {
        let input = input_order(0, n as int);
        keys.lemma_total();
        input.lemma_sort_by_ensures(keys.leq());
        lemma_sorted_unique(order@, sorted_order(keys.rows(), keys.leq()), keys.leq());
    }
    order
}

} // verus!
