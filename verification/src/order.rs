//! Sorting: the order of a list's items as a list of their indices.

use vstd::prelude::*;

use crate::geometry::numbers;

verus! {

/// A list whose items can be told apart by which comes first.
pub trait Ordered {
    /// The number of items.
    spec fn count(&self) -> nat;

    /// Whether one item comes before another.
    spec fn before(&self, i: int, j: int) -> bool;

    /// Of two items at most one comes before the other.
    proof fn before_is_asymmetric(&self, i: int, j: int)
        requires
            0 <= i < self.count(),
            0 <= j < self.count(),
            self.before(i, j),
        ensures
            !self.before(j, i),
    ;

    /// An item that does not come before a second, which does not come before
    /// a third, does not come before the third.
    proof fn after_is_transitive(&self, i: int, j: int, k: int)
        requires
            0 <= i < self.count(),
            0 <= j < self.count(),
            0 <= k < self.count(),
            !self.before(i, j),
            !self.before(j, k),
        ensures
            !self.before(i, k),
    ;

    fn is_before(&self, i: usize, j: usize) -> (result: bool)
        requires
            i < self.count(),
            j < self.count(),
        ensures
            result == self.before(i as int, j as int),
    ;
}

/// Whether an item stands ahead of another in the sorted list: it comes
/// before it, or neither does and it stood ahead of it to begin with.
pub open spec fn ahead<T: Ordered>(items: T, i: int, j: int) -> bool {
    items.before(i, j) || !items.before(j, i) && i < j
}

/// A list of the numbers from `from` up to `to`, each once, in the order of
/// the items that they stand for.
pub open spec fn in_order<T: Ordered>(items: T, from: int, to: int, list: Seq<usize>) -> bool {
    &&& list.len() == to - from
    &&& forall|k: int| 0 <= k < list.len() ==> from <= #[trigger] list[k] < to
    &&& forall|n: usize| from <= n < to ==> #[trigger] list.contains(n)
    &&& forall|a: int, b: int|
        0 <= a < b < list.len() ==> ahead(items, #[trigger] list[a] as int, #[trigger] list[b] as int)
}

proof fn lemma_ahead_transitive<T: Ordered>(items: T, i: int, j: int, k: int)
    requires
        0 <= i < items.count(),
        0 <= j < items.count(),
        0 <= k < items.count(),
        ahead(items, i, j),
        ahead(items, j, k),
    ensures
        ahead(items, i, k),
{
    if items.before(i, j) {
        items.before_is_asymmetric(i, j);
    }
    if items.before(j, k) {
        items.before_is_asymmetric(j, k);
    }
    if items.before(k, i) {
        items.before_is_asymmetric(k, i);
        items.after_is_transitive(k, j, i);
    }
    if !items.before(i, k) {
        if items.before(i, j) {
            items.after_is_transitive(i, k, j);
        }
        if items.before(j, k) {
            items.after_is_transitive(j, i, k);
        }
    }
}

fn merge<T: Ordered>(
    items: &T,
    left: &Vec<usize>,
    right: &Vec<usize>,
    from: usize,
    middle: usize,
    to: usize,
) -> (result: Vec<usize>)
    requires
        from <= middle <= to <= items.count(),
        in_order(*items, from as int, middle as int, left@),
        in_order(*items, middle as int, to as int, right@),
    ensures
        in_order(*items, from as int, to as int, result@),
{
    let mut result: Vec<usize> = Vec::new();
    let mut i: usize = 0;
    let mut j: usize = 0;
    while i < left.len() || j < right.len()
        invariant
            from <= middle <= to <= items.count(),
            in_order(*items, from as int, middle as int, left@),
            in_order(*items, middle as int, to as int, right@),
            i <= left@.len(),
            j <= right@.len(),
            result@.len() == i + j,
            forall|k: int| 0 <= k < result@.len() ==> from <= #[trigger] result@[k] < to,
            forall|k: int| 0 <= k < i ==> #[trigger] result@.contains(left@[k]),
            forall|k: int| 0 <= k < j ==> #[trigger] result@.contains(right@[k]),
            forall|a: int, b: int|
                0 <= a < b < result@.len() ==> ahead(
                    *items,
                    #[trigger] result@[a] as int,
                    #[trigger] result@[b] as int,
                ),
            forall|a: int, k: int|
                0 <= a < result@.len() && i <= k < left@.len() ==> ahead(
                    *items,
                    #[trigger] result@[a] as int,
                    #[trigger] left@[k] as int,
                ),
            forall|a: int, k: int|
                0 <= a < result@.len() && j <= k < right@.len() ==> ahead(
                    *items,
                    #[trigger] result@[a] as int,
                    #[trigger] right@[k] as int,
                ),
        decreases left@.len() - i + right@.len() - j,
    {
        let take_left = if i >= left.len() {
            false
        } else if j >= right.len() {
            true
        } else {
            !items.is_before(right[j], left[i])
        };
        let ghost before = result@;
        if take_left {
            let x: usize = left[i];
            result.push(x);
            proof {
                assert forall|k: int| j <= k < right@.len() implies ahead(
                    *items,
                    x as int,
                    #[trigger] right@[k] as int,
                ) by {
                    let y = right@[j as int] as int;
                    assert(ahead(*items, x as int, y));
                    if k > j {
                        lemma_ahead_transitive(*items, x as int, y, right@[k] as int);
                    }
                }
                assert(result@[before.len() as int] == x);
                assert forall|k: int| 0 <= k < i + 1 implies #[trigger] result@.contains(
                    left@[k],
                ) by {
                    if k < i {
                        assert(before.contains(left@[k]));
                        let m = choose|m: int| 0 <= m < before.len() && before[m] == left@[k];
                        assert(result@[m] == left@[k]);
                    }
                }
                assert forall|k: int| 0 <= k < j implies #[trigger] result@.contains(
                    right@[k],
                ) by {
                    assert(before.contains(right@[k]));
                    let m = choose|m: int| 0 <= m < before.len() && before[m] == right@[k];
                    assert(result@[m] == right@[k]);
                }
            }
            i += 1;
        } else {
            let y: usize = right[j];
            result.push(y);
            proof {
                assert forall|k: int| i <= k < left@.len() implies ahead(
                    *items,
                    y as int,
                    #[trigger] left@[k] as int,
                ) by {
                    let x = left@[i as int] as int;
                    assert(ahead(*items, y as int, x));
                    if k > i {
                        lemma_ahead_transitive(*items, y as int, x, left@[k] as int);
                    }
                }
                assert(result@[before.len() as int] == y);
                assert forall|k: int| 0 <= k < i implies #[trigger] result@.contains(
                    left@[k],
                ) by {
                    assert(before.contains(left@[k]));
                    let m = choose|m: int| 0 <= m < before.len() && before[m] == left@[k];
                    assert(result@[m] == left@[k]);
                }
                assert forall|k: int| 0 <= k < j + 1 implies #[trigger] result@.contains(
                    right@[k],
                ) by {
                    if k < j {
                        assert(before.contains(right@[k]));
                        let m = choose|m: int| 0 <= m < before.len() && before[m] == right@[k];
                        assert(result@[m] == right@[k]);
                    }
                }
            }
            j += 1;
        }
    }
    proof {
        assert forall|n: usize| from <= n < to implies #[trigger] result@.contains(n) by {
            if n < middle {
                assert(left@.contains(n));
                let k = choose|k: int| 0 <= k < left@.len() && left@[k] == n;
                assert(result@.contains(left@[k]));
            } else {
                assert(right@.contains(n));
                let k = choose|k: int| 0 <= k < right@.len() && right@[k] == n;
                assert(result@.contains(right@[k]));
            }
        }
    }
    result
}

fn sort_range<T: Ordered>(items: &T, from: usize, to: usize) -> (result: Vec<usize>)
    requires
        from <= to <= items.count(),
    ensures
        in_order(*items, from as int, to as int, result@),
    decreases to - from,
{
    if to - from <= 1 {
        let mut result: Vec<usize> = Vec::new();
        if from < to {
            result.push(from);
            assert(result@[0] == from);
        }
        return result;
    }
    let middle: usize = from + (to - from) / 2;
    let left = sort_range(items, from, middle);
    let right = sort_range(items, middle, to);
    merge(items, &left, &right, from, middle, to)
}

/// The indices of the items, in the order of the items; items neither of which
/// comes first stay in the order in which they stand.
pub fn sorted_indices<T: Ordered>(items: &T, count: usize) -> (result: Vec<usize>)
    requires
        count == items.count(),
    ensures
        in_order(*items, 0, count as int, result@),
{
    sort_range(items, 0, count)
}

/// There is only one such order.
pub proof fn the_order_is_unique<T: Ordered>(items: T, a: Seq<usize>, b: Seq<usize>)
    requires
        in_order(items, 0, items.count() as int, a),
        in_order(items, 0, items.count() as int, b),
    ensures
        a == b,
{
    lemma_same_order(items, a, b, a.len() as int);
    assert(a =~= b);
}

proof fn lemma_same_order<T: Ordered>(items: T, a: Seq<usize>, b: Seq<usize>, n: int)
    requires
        in_order(items, 0, items.count() as int, a),
        in_order(items, 0, items.count() as int, b),
        0 <= n <= a.len(),
    ensures
        forall|k: int| 0 <= k < n ==> #[trigger] a[k] == b[k],
    decreases n,
{
    if n > 0 {
        lemma_same_order(items, a, b, n - 1);
        let k = n - 1;
        if a[k] != b[k] {
            assert(b.contains(a[k]));
            let p = choose|p: int| 0 <= p < b.len() && b[p] == a[k];
            assert(a.contains(b[k]));
            let q = choose|q: int| 0 <= q < a.len() && a[q] == b[k];
            if items.before(a[k] as int, a[k] as int) {
                items.before_is_asymmetric(a[k] as int, a[k] as int);
            }
            if items.before(b[k] as int, b[k] as int) {
                items.before_is_asymmetric(b[k] as int, b[k] as int);
            }
            if p < k {
                assert(a[p] == b[p]);
                assert(ahead(items, a[p] as int, a[k] as int));
            }
            if q < k {
                assert(a[q] == b[q]);
                assert(ahead(items, b[q] as int, b[k] as int));
            }
            assert(ahead(items, b[k] as int, b[p] as int));
            assert(ahead(items, a[k] as int, a[q] as int));
            if items.before(a[k] as int, b[k] as int) {
                items.before_is_asymmetric(a[k] as int, b[k] as int);
            }
        }
    }
}

/// Whether a list holds the numbers below `count`, each once, in an order in
/// which those that come before others stand ahead of them, and the others as
/// they are.
pub open spec fn sorts(order: Seq<int>, count: int, before: spec_fn(int, int) -> bool) -> bool {
    &&& order.len() == count
    &&& forall|k: int| 0 <= k < order.len() ==> 0 <= #[trigger] order[k] < count
    &&& forall|n: int| 0 <= n < count ==> #[trigger] order.contains(n)
    &&& forall|a: int, b: int|
        0 <= a < b < order.len() ==> before(#[trigger] order[a], #[trigger] order[b]) || !before(
            order[b],
            order[a],
        ) && order[a] < order[b]
}

/// The sorted order of some items.
pub open spec fn stable_order(count: int, before: spec_fn(int, int) -> bool) -> Seq<int> {
    choose|order: Seq<int>| sorts(order, count, before)
}

/// Sorts the items.
pub fn sort_order<T: Ordered>(
    items: &T,
    count: usize,
    before: Ghost<spec_fn(int, int) -> bool>,
) -> (result: Vec<usize>)
    requires
        count == items.count(),
        forall|i: int, j: int|
            0 <= i < count && 0 <= j < count ==> (#[trigger] before@(i, j)) == items.before(i, j),
    ensures
        numbers(result@) == stable_order(count as int, before@),
        sorts(numbers(result@), count as int, before@),
{
    let result = sorted_indices(items, count);
    proof {
        let order = numbers(result@);
        let n = count as int;
        assert forall|m: int| 0 <= m < n implies #[trigger] order.contains(m) by {
            assert(result@.contains(m as usize));
            let k = choose|k: int| 0 <= k < result@.len() && result@[k] == m as usize;
            assert(order[k] == m);
        }
        assert forall|a: int, b: int| 0 <= a < b < order.len() implies before@(
            #[trigger] order[a],
            #[trigger] order[b],
        ) || !before@(order[b], order[a]) && order[a] < order[b] by {
            assert(ahead(*items, result@[a] as int, result@[b] as int));
            assert(before@(order[a], order[b]) == items.before(order[a], order[b]));
            assert(before@(order[b], order[a]) == items.before(order[b], order[a]));
        }
        assert(sorts(order, n, before@));
        let chosen = stable_order(n, before@);
        let listed = Seq::new(chosen.len(), |k: int| chosen[k] as usize);
        assert(in_order(*items, 0, n, listed)) by {
            assert forall|m: usize| 0 <= m < n implies #[trigger] listed.contains(m) by {
                assert(chosen.contains(m as int));
                let k = choose|k: int| 0 <= k < chosen.len() && chosen[k] == m as int;
                assert(listed[k] == m);
            }
            assert forall|a: int, b: int| 0 <= a < b < listed.len() implies ahead(
                *items,
                #[trigger] listed[a] as int,
                #[trigger] listed[b] as int,
            ) by {
                assert(before@(chosen[a], chosen[b]) == items.before(chosen[a], chosen[b]));
                assert(before@(chosen[b], chosen[a]) == items.before(chosen[b], chosen[a]));
            }
        }
        the_order_is_unique(*items, result@, listed);
        assert(order =~= chosen);
    }
    result
}

/// Whether a relation on the numbers below `count` can order them: of two at
/// most one comes before the other, and what does not come before a second,
/// which does not come before a third, does not come before the third.
pub open spec fn orders(count: int, before: spec_fn(int, int) -> bool) -> bool {
    &&& forall|i: int, j: int|
        0 <= i < count && 0 <= j < count && #[trigger] before(i, j) ==> !before(j, i)
    &&& forall|i: int, j: int, k: int|
        0 <= i < count && 0 <= j < count && 0 <= k < count && !(#[trigger] before(i, j)) && !(
        #[trigger] before(j, k)) ==> !before(i, k)
}

proof fn lemma_first_after(
    order: Seq<int>,
    n: int,
    before: spec_fn(int, int) -> bool,
    from: int,
) -> (place: int)
    requires
        0 <= from <= order.len(),
        forall|k: int| 0 <= k < from ==> !before(n, #[trigger] order[k]),
    ensures
        from <= place <= order.len(),
        forall|k: int| 0 <= k < place ==> !before(n, #[trigger] order[k]),
        place < order.len() ==> before(n, order[place]),
    decreases order.len() - from,
{
    if from == order.len() || before(n, order[from]) {
        from
    } else {
        lemma_first_after(order, n, before, from + 1)
    }
}

proof fn lemma_inserted(count: int, before: spec_fn(int, int) -> bool) -> (order: Seq<int>)
    requires
        0 <= count,
        orders(count, before),
    ensures
        sorts(order, count, before),
    decreases count,
{
    if count == 0 {
        Seq::empty()
    } else {
        let n = count - 1;
        let rest = lemma_inserted(n, before);
        let place = lemma_first_after(rest, n, before, 0);
        let order = rest.insert(place, n);
        assert forall|b: int| place <= b < rest.len() implies before(n, #[trigger] rest[b]) by {
            if b > place {
                assert(before(rest[place], rest[b]) || !before(rest[b], rest[place]));
                assert(before(n, rest[place]));
                if !before(n, rest[b]) {
                    assert(!before(rest[b], rest[place]));
                    assert(!before(n, rest[place]));
                }
            }
        }
        assert forall|m: int| 0 <= m < count implies #[trigger] order.contains(m) by {
            if m == n {
                assert(order[place] == n);
            } else {
                assert(rest.contains(m));
                let k = choose|k: int| 0 <= k < rest.len() && rest[k] == m;
                if k < place {
                    assert(order[k] == m);
                } else {
                    assert(order[k + 1] == m);
                }
            }
        }
        assert forall|k: int| 0 <= k < order.len() implies 0 <= #[trigger] order[k] < count by {
            if k < place {
                assert(order[k] == rest[k]);
            } else if k > place {
                assert(order[k] == rest[k - 1]);
            }
        }
        assert forall|a: int, b: int| 0 <= a < b < order.len() implies before(
            #[trigger] order[a],
            #[trigger] order[b],
        ) || !before(order[b], order[a]) && order[a] < order[b] by {
            if b < place {
                assert(order[a] == rest[a] && order[b] == rest[b]);
            } else if b == place {
                assert(order[a] == rest[a] && order[b] == n);
            } else if a < place {
                assert(order[a] == rest[a] && order[b] == rest[b - 1]);
            } else if a == place {
                assert(order[a] == n && order[b] == rest[b - 1]);
            } else {
                assert(order[a] == rest[a - 1] && order[b] == rest[b - 1]);
            }
        }
        order
    }
}

/// Whatever can be ordered has a sorted order.
pub proof fn the_order_exists(count: int, before: spec_fn(int, int) -> bool)
    requires
        0 <= count,
        orders(count, before),
    ensures
        sorts(stable_order(count, before), count, before),
{
    let order = lemma_inserted(count, before);
    assert(sorts(order, count, before));
}

} // verus!
