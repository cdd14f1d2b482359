//! Putting a list in descending order of a key computed for each item.

use vstd::prelude::*;

verus! {

/// `order` holds each position below `n` exactly once.
pub open spec fn is_arrangement(order: Seq<usize>, n: nat) -> bool {
    &&& order.len() == n
    &&& order.no_duplicates()
    &&& forall|k: int| 0 <= k < order.len() ==> #[trigger] order[k] < n
    &&& forall|i: usize| 0 <= i < n ==> #[trigger] order.contains(i)
}

/// Along `order` the keys never rise, and positions with equal keys stay in
/// rising order.
pub open spec fn descends(order: Seq<usize>, keys: Seq<u128>) -> bool {
    &&& forall|i: int, j: int|
        0 <= i <= j < order.len() ==> keys[#[trigger] order[i] as int] >= keys[#[trigger] order[j] as int]
    &&& forall|i: int, j: int|
        0 <= i < j < order.len() && keys[#[trigger] order[i] as int] == keys[#[trigger] order[j] as int]
            ==> order[i] < order[j]
}

/// The position `p` comes before the position `q`: its key is higher, or
/// the keys are the same and `p` is the lower position.
pub open spec fn ranks_before(keys: Seq<u128>, p: usize, q: usize) -> bool {
    keys[p as int] > keys[q as int] || (keys[p as int] == keys[q as int] && p < q)
}

/// `run` holds the positions from `lo` up to `hi`, each once, in the order
/// in which they rank.
pub open spec fn is_sorted_run(run: Seq<usize>, keys: Seq<u128>, lo: int, hi: int) -> bool {
    &&& run.len() == hi - lo
    &&& forall|k: int| 0 <= k < run.len() ==> lo <= #[trigger] run[k] < hi
    &&& forall|i: int, j: int| 0 <= i < j < run.len() ==> ranks_before(keys, #[trigger] run[i], #[trigger] run[j])
    &&& forall|p: usize| lo <= p < hi ==> #[trigger] run.contains(p)
}

/// Merges two sorted runs of neighbouring ranges of positions into one.
fn merge_runs(keys: &Vec<u128>, left: &Vec<usize>, right: &Vec<usize>, lo: usize, mid: usize, hi: usize) -> (r:
    Vec<usize>)
    requires
        lo <= mid <= hi <= keys@.len(),
        is_sorted_run(left@, keys@, lo as int, mid as int),
        is_sorted_run(right@, keys@, mid as int, hi as int),
    ensures
        is_sorted_run(r@, keys@, lo as int, hi as int),
{
    let mut merged: Vec<usize> = Vec::new();
    let mut i: usize = 0;
    let mut j: usize = 0;
    while i < left.len() || j < right.len()
        invariant
            lo <= mid <= hi <= keys@.len(),
            is_sorted_run(left@, keys@, lo as int, mid as int),
            is_sorted_run(right@, keys@, mid as int, hi as int),
            i <= left@.len(),
            j <= right@.len(),
            merged@.len() == i + j,
            forall|k: int| 0 <= k < merged@.len() ==> lo <= #[trigger] merged@[k] < hi,
            forall|x: int, y: int|
                0 <= x < y < merged@.len() ==> ranks_before(keys@, #[trigger] merged@[x], #[trigger] merged@[y]),
            forall|k: int|
                0 <= k < merged@.len() && i < left@.len() ==> ranks_before(
                    keys@,
                    #[trigger] merged@[k],
                    left@[i as int],
                ),
            forall|k: int|
                0 <= k < merged@.len() && j < right@.len() ==> ranks_before(
                    keys@,
                    #[trigger] merged@[k],
                    right@[j as int],
                ),
            forall|x: int| 0 <= x < i ==> merged@.contains(#[trigger] left@[x]),
            forall|y: int| 0 <= y < j ==> merged@.contains(#[trigger] right@[y]),
        decreases left@.len() - i + right@.len() - j,
    {
        let ghost before = merged@;
        let from_left = if i >= left.len() {
            false
        } else if j >= right.len() {
            true
        } else {
            keys[left[i]] >= keys[right[j]]
        };
        if from_left {
            merged.push(left[i]);
            i += 1;
        } else {
            merged.push(right[j]);
            j += 1;
        }
        proof {
            let after = merged@;
            let last = after.len() - 1;
            assert forall|x: int| 0 <= x < i implies after.contains(#[trigger] left@[x]) by {
                if from_left && x == i - 1 {
                    assert(after[last] == left@[x]);
                } else {
                    let k = choose|k: int| 0 <= k < before.len() && before[k] == left@[x];
                    assert(after[k] == left@[x]);
                }
            }
            assert forall|y: int| 0 <= y < j implies after.contains(#[trigger] right@[y]) by {
                if !from_left && y == j - 1 {
                    assert(after[last] == right@[y]);
                } else {
                    let k = choose|k: int| 0 <= k < before.len() && before[k] == right@[y];
                    assert(after[k] == right@[y]);
                }
            }
            assert forall|x: int, y: int| 0 <= x < y < after.len() implies ranks_before(
                keys@,
                #[trigger] after[x],
                #[trigger] after[y],
            ) by {
                assert(after[x] == before[x]);
                if y < last {
                    assert(after[y] == before[y]);
                }
            }
            assert forall|k: int| 0 <= k < after.len() && i < left@.len() implies ranks_before(
                keys@,
                #[trigger] after[k],
                left@[i as int],
            ) by {
                if k < last {
                    assert(after[k] == before[k]);
                    if from_left {
                        assert(ranks_before(keys@, before[k], left@[i - 1]));
                        assert(ranks_before(keys@, left@[i - 1], left@[i as int]));
                    }
                } else if from_left {
                    assert(ranks_before(keys@, left@[i - 1], left@[i as int]));
                } else {
                    assert(left@[i as int] < mid <= right@[j - 1]);
                }
            }
            assert forall|k: int| 0 <= k < after.len() && j < right@.len() implies ranks_before(
                keys@,
                #[trigger] after[k],
                right@[j as int],
            ) by {
                if k < last {
                    assert(after[k] == before[k]);
                    if !from_left {
                        assert(ranks_before(keys@, before[k], right@[j - 1]));
                        assert(ranks_before(keys@, right@[j - 1], right@[j as int]));
                    }
                } else if !from_left {
                    assert(ranks_before(keys@, right@[j - 1], right@[j as int]));
                } else {
                    assert(left@[i - 1] < mid <= right@[j as int]);
                }
            }
        }
    }
    proof {
        assert forall|p: usize| lo <= p < hi implies #[trigger] merged@.contains(p) by {
            if p < mid {
                assert(left@.contains(p));
                let x = choose|x: int| 0 <= x < left@.len() && left@[x] == p;
                assert(merged@.contains(left@[x]));
            } else {
                assert(right@.contains(p));
                let y = choose|y: int| 0 <= y < right@.len() && right@[y] == p;
                assert(merged@.contains(right@[y]));
            }
        }
    }
    merged
}

/// The positions from `lo` up to `hi` in the order in which they rank.
fn sort_range(keys: &Vec<u128>, lo: usize, hi: usize) -> (r: Vec<usize>)
    requires
        lo <= hi <= keys@.len(),
    ensures
        is_sorted_run(r@, keys@, lo as int, hi as int),
    decreases hi - lo,
{
    let mut run: Vec<usize> = Vec::new();
    if hi - lo == 0 {
        run
    } else if hi - lo == 1 {
        run.push(lo);
        assert(run@[0] == lo);
        run
    } else {
        let mid = lo + (hi - lo) / 2;
        let left = sort_range(keys, lo, mid);
        let right = sort_range(keys, mid, hi);
        merge_runs(keys, &left, &right, lo, mid, hi)
    }
}

/// The order in which the positions of `keys` come when the keys descend;
/// positions with equal keys come in rising order.
pub fn descending_order(keys: &Vec<u128>) -> (order: Vec<usize>)
    ensures
        is_arrangement(order@, keys@.len()),
        descends(order@, keys@),
{
    let order = sort_range(keys, 0, keys.len());
    proof {
        assert forall|i: int, j: int| 0 <= i <= j < order@.len() implies keys@[#[trigger] order@[i] as int]
            >= keys@[#[trigger] order@[j] as int] by {
            if i < j {
                assert(ranks_before(keys@, order@[i], order@[j]));
            }
        }
        assert forall|i: int, j: int|
            0 <= i < j < order@.len() && keys@[#[trigger] order@[i] as int] == keys@[#[trigger] order@[j] as int]
            implies order@[i] < order@[j] by {
            assert(ranks_before(keys@, order@[i], order@[j]));
        }
        assert forall|i: int, j: int| 0 <= i < order@.len() && 0 <= j < order@.len() && i != j implies order@[i]
            != order@[j] by {
            if i < j {
                assert(ranks_before(keys@, order@[i], order@[j]));
            } else {
                assert(ranks_before(keys@, order@[j], order@[i]));
            }
        }
    }
    order
}

/// The items in the order that `order` gives: the item at position
/// `order[k]` comes as number `k`.
pub fn rearrange<T>(items: Vec<T>, order: &Vec<usize>) -> (r: Vec<T>)
    requires
        is_arrangement(order@, items@.len()),
    ensures
        r@.len() == items@.len(),
        forall|k: int| 0 <= k < r@.len() ==> r@[k] == items@[#[trigger] order@[k] as int],
{
    let n = items.len();
    // where each item goes, counted from the end
    let mut target: Vec<usize> = Vec::new();
    let mut slots: Vec<Option<T>> = Vec::new();
    let mut k: usize = 0;
    while k < n
        invariant
            k <= n,
            target@.len() == k,
            slots@.len() == k,
            forall|j: int| 0 <= j < k ==> slots@[j] is None,
        decreases n - k,
    {
        target.push(0);
        slots.push(None);
        k += 1;
    }
    k = 0;
    while k < n
        invariant
            k <= n,
            n == items@.len(),
            target@.len() == n,
            is_arrangement(order@, n as nat),
            forall|j: int| 0 <= j < k ==> target@[#[trigger] order@[j] as int] == n - 1 - j,
        decreases n - k,
    {
        target[order[k]] = n - 1 - k;
        k += 1;
    }
    let ghost given = items@;
    let mut items = items;
    let mut i: usize = n;
    while i > 0
        invariant
            i <= n,
            n == given.len(),
            items@ == given.take(i as int),
            target@.len() == n,
            slots@.len() == n,
            is_arrangement(order@, n as nat),
            forall|j: int| 0 <= j < n ==> target@[#[trigger] order@[j] as int] == n - 1 - j,
            forall|j: int|
                0 <= j < n ==> #[trigger] slots@[n - 1 - j] == (if order@[j] >= i {
                    Some(given[order@[j] as int])
                } else {
                    None
                }),
        decreases i,
    {
        i -= 1;
        let item = items.pop().unwrap();
        let ghost at = order@.index_of(i);
        proof {
            assert(order@.contains(i));
            assert(order@[at] == i);
            assert(given.take(i as int + 1).drop_last() == given.take(i as int));
        }
        let to = target[i];
        slots[to] = Some(item);
        proof {
            assert forall|j: int| 0 <= j < n implies #[trigger] slots@[n - 1 - j] == (if order@[j]
                >= i {
                Some(given[order@[j] as int])
            } else {
                None
            }) by {
                if j != at {
                    assert(order@[j] != order@[at]);
                }
            }
        }
    }
    let mut r: Vec<T> = Vec::new();
    let mut left: usize = n;
    while left > 0
        invariant
            left <= n,
            n == given.len(),
            slots@.len() == left,
            is_arrangement(order@, n as nat),
            r@.len() == n - left,
            forall|j: int| 0 <= j < left ==> #[trigger] slots@[j] == Some(given[order@[n - 1 - j] as int]),
            forall|j: int| 0 <= j < n - left ==> r@[j] == given[#[trigger] order@[j] as int],
        decreases left,
    {
        left -= 1;
        let slot = slots.pop().unwrap();
        r.push(slot.unwrap());
    }
    r
}

/// The items in descending order of their keys, items with equal keys in
/// the order they had, and the order itself: the position that each item of
/// the result had before.
pub fn sort_descending<T>(items: Vec<T>, keys: &Vec<u128>) -> (r: (Vec<T>, Ghost<Seq<usize>>))
    requires
        keys@.len() == items@.len(),
    ensures
        is_arrangement(r.1@, items@.len()),
        descends(r.1@, keys@),
        r.0@.len() == items@.len(),
        forall|k: int| 0 <= k < r.0@.len() ==> r.0@[k] == items@[#[trigger] r.1@[k] as int],
{
    let order = descending_order(keys);
    let sorted = rearrange(items, &order);
    (sorted, Ghost(order@))
}

/// The sum of the numbers.
pub open spec fn sum(numbers: Seq<nat>) -> nat
    decreases numbers.len(),
{
    if numbers.len() == 0 {
        0
    } else {
        sum(numbers.drop_last()) + numbers.last()
    }
}

/// Taking one number out takes it off the sum.
pub proof fn lemma_sum_remove(numbers: Seq<nat>, at: int)
    requires
        0 <= at < numbers.len(),
    ensures
        sum(numbers) == sum(numbers.remove(at)) + numbers[at],
    decreases numbers.len(),
{
    if at == numbers.len() - 1 {
        assert(numbers.remove(at) == numbers.drop_last());
    } else {
        lemma_sum_remove(numbers.drop_last(), at);
        assert(numbers.remove(at).drop_last() == numbers.drop_last().remove(at));
        assert(numbers.remove(at).last() == numbers.last());
    }
}

/// A sum does not depend on the order of its numbers.
pub proof fn lemma_sum_rearranged(numbers: Seq<nat>, order: Seq<usize>, rearranged: Seq<nat>)
    requires
        numbers.len() <= usize::MAX,
        is_arrangement(order, numbers.len()),
        rearranged.len() == numbers.len(),
        forall|k: int| 0 <= k < rearranged.len() ==> rearranged[k] == numbers[#[trigger] order[k] as int],
    ensures
        sum(rearranged) == sum(numbers),
    decreases numbers.len(),
{
    if numbers.len() > 0 {
        let last = (numbers.len() - 1) as usize;
        assert(order.contains(last));
        let at = choose|at: int| 0 <= at < order.len() && order[at] == last;
        let fewer = order.remove(at);
        assert forall|k: int| 0 <= k < fewer.len() implies #[trigger] fewer[k] < numbers.len() - 1 by {
            if k < at {
                assert(fewer[k] == order[k]);
                assert(order[k] != order[at]);
            } else {
                assert(fewer[k] == order[k + 1]);
                assert(order[k + 1] != order[at]);
            }
        }
        assert forall|i: usize| 0 <= i < numbers.len() - 1 implies #[trigger] fewer.contains(i) by {
            assert(order.contains(i));
            let k = choose|k: int| 0 <= k < order.len() && order[k] == i;
            if k < at {
                assert(fewer[k] == i);
            } else {
                assert(k > at);
                assert(fewer[k - 1] == i);
            }
        }
        assert forall|k: int, l: int| 0 <= k < fewer.len() && 0 <= l < fewer.len() && k != l implies fewer[k]
            != fewer[l] by {
            let k2 = if k < at { k } else { k + 1 };
            let l2 = if l < at { l } else { l + 1 };
            assert(fewer[k] == order[k2] && fewer[l] == order[l2]);
        }
        assert forall|k: int| 0 <= k < rearranged.remove(at).len() implies rearranged.remove(at)[k]
            == numbers.drop_last()[#[trigger] fewer[k] as int] by {
            if k < at {
                assert(fewer[k] == order[k]);
            } else {
                assert(fewer[k] == order[k + 1]);
            }
        }
        lemma_sum_rearranged(numbers.drop_last(), fewer, rearranged.remove(at));
        lemma_sum_remove(rearranged, at);
    }
}

} // verus!
