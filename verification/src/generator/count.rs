use vstd::prelude::*;

verus! {

/// The sum of `weight(i)` over the indices `i` below `n` for which `keep(i)` holds.
pub open spec fn sum_where(n: nat, keep: spec_fn(int) -> bool, weight: spec_fn(int) -> nat) -> nat
    decreases n,
{
    if n == 0 {
        0
    } else {
        sum_where((n - 1) as nat, keep, weight) + if keep(n - 1) {
            weight(n - 1)
        } else {
            0
        }
    }
}

/// The number of indices below `n` for which `keep` holds.
pub open spec fn count_where(n: nat, keep: spec_fn(int) -> bool) -> nat {
    sum_where(n, keep, |i: int| 1nat)
}

/// The number of `true` in `bits`.
pub open spec fn count_true(bits: Seq<bool>) -> nat {
    count_where(bits.len(), |i: int| bits[i])
}

/// Sums over the same indices with the same weights are equal.
pub proof fn lemma_sum_same(
    n: nat,
    keep: spec_fn(int) -> bool,
    weight: spec_fn(int) -> nat,
    keep2: spec_fn(int) -> bool,
    weight2: spec_fn(int) -> nat,
)
    requires
        forall|i: int| 0 <= i < n ==> #[trigger] keep(i) == keep2(i),
        forall|i: int| 0 <= i < n && #[trigger] keep(i) ==> weight(i) == weight2(i),
    ensures
        sum_where(n, keep, weight) == sum_where(n, keep2, weight2),
    decreases n,
{
    if n > 0 {
        lemma_sum_same((n - 1) as nat, keep, weight, keep2, weight2);
    }
}

/// Where one index leaves, the sum falls by its weight.
pub proof fn lemma_sum_remove(
    n: nat,
    keep: spec_fn(int) -> bool,
    keep2: spec_fn(int) -> bool,
    weight: spec_fn(int) -> nat,
    k: int,
)
    requires
        0 <= k < n,
        keep(k),
        !keep2(k),
        forall|i: int| 0 <= i < n && i != k ==> #[trigger] keep(i) == keep2(i),
    ensures
        sum_where(n, keep, weight) == sum_where(n, keep2, weight) + weight(k),
    decreases n,
{
    if k == n - 1 {
        lemma_sum_same((n - 1) as nat, keep, weight, keep2, weight);
    } else {
        lemma_sum_remove((n - 1) as nat, keep, keep2, weight, k);
    }
}

/// A sum over fewer indices is not larger.
pub proof fn lemma_sum_monotone(
    n: nat,
    keep: spec_fn(int) -> bool,
    keep2: spec_fn(int) -> bool,
    weight: spec_fn(int) -> nat,
)
    requires
        forall|i: int| 0 <= i < n && #[trigger] keep(i) ==> keep2(i),
    ensures
        sum_where(n, keep, weight) <= sum_where(n, keep2, weight),
    decreases n,
{
    if n > 0 {
        lemma_sum_monotone((n - 1) as nat, keep, keep2, weight);
    }
}

/// A sum over fewer indices, one of them with a positive weight, is smaller.
pub proof fn lemma_sum_strict(
    n: nat,
    keep: spec_fn(int) -> bool,
    keep2: spec_fn(int) -> bool,
    weight: spec_fn(int) -> nat,
    k: int,
)
    requires
        forall|i: int| 0 <= i < n && #[trigger] keep(i) ==> keep2(i),
        0 <= k < n,
        keep2(k),
        !keep(k),
        weight(k) > 0,
    ensures
        sum_where(n, keep, weight) < sum_where(n, keep2, weight),
    decreases n,
{
    if k == n - 1 {
        lemma_sum_monotone((n - 1) as nat, keep, keep2, weight);
    } else {
        lemma_sum_strict((n - 1) as nat, keep, keep2, weight, k);
    }
}

/// A count is nothing exactly if no index is counted, and it is at most `n`.
pub proof fn lemma_count_zero(n: nat, keep: spec_fn(int) -> bool)
    ensures
        count_where(n, keep) == 0 <==> (forall|i: int| 0 <= i < n ==> !#[trigger] keep(i)),
        count_where(n, keep) <= n,
    decreases n,
{
    if n > 0 {
        lemma_count_zero((n - 1) as nat, keep);
        if count_where(n, keep) == 0 {
            assert forall|i: int| 0 <= i < n implies !#[trigger] keep(i) by {
                if i < n - 1 {
                }
            }
        }
    }
}

/// A count is `n` exactly if every index is counted.
pub proof fn lemma_count_all(n: nat, keep: spec_fn(int) -> bool)
    ensures
        count_where(n, keep) == n <==> (forall|i: int| 0 <= i < n ==> #[trigger] keep(i)),
    decreases n,
{
    if n > 0 {
        lemma_count_all((n - 1) as nat, keep);
        lemma_count_zero((n - 1) as nat, keep);
        if count_where(n, keep) == n {
            assert forall|i: int| 0 <= i < n implies #[trigger] keep(i) by {
                if i < n - 1 {
                }
            }
        }
    }
}

/// A count of one names its index: whichever index is counted, it is the
/// only one.
pub proof fn lemma_count_one(n: nat, keep: spec_fn(int) -> bool, k: int, other: int)
    requires
        count_where(n, keep) == 1,
        0 <= k < n,
        0 <= other < n,
        keep(k),
        keep(other),
    ensures
        k == other,
    decreases n,
{
    if k != other {
        let without = |i: int| keep(i) && i != k;
        lemma_sum_remove(n, keep, without, |i: int| 1nat, k);
        lemma_count_zero(n, without);
        assert(without(other));
    }
}

/// A prefix of a sum is at most the sum.
pub proof fn lemma_sum_prefix(
    n: nat,
    m: nat,
    keep: spec_fn(int) -> bool,
    weight: spec_fn(int) -> nat,
)
    requires
        m <= n,
    ensures
        sum_where(m, keep, weight) <= sum_where(n, keep, weight),
    decreases n,
{
    if m < n {
        lemma_sum_prefix((n - 1) as nat, m, keep, weight);
    }
}

} // verus!

verus! {

/// The number of entries of a list without duplicates, all below `n`, is
/// the number of indices below `n` that the list holds.
pub proof fn lemma_list_count(list: Seq<usize>, n: nat)
    requires
        list.no_duplicates(),
        n <= usize::MAX,
        forall|i: int| 0 <= i < list.len() ==> (#[trigger] list[i]) < n,
    ensures
        count_where(n, |u: int| list.contains(u as usize)) == list.len(),
    decreases list.len(),
{
    let held = |u: int| list.contains(u as usize);
    if list.len() == 0 {
        assert forall|u: int| 0 <= u < n implies !#[trigger] held(u) by {}
        lemma_count_zero(n, held);
    } else {
        let init = list.drop_last();
        let last = list.last();
        let held_before = |u: int| init.contains(u as usize);
        lemma_list_count(init, n);
        assert(list[list.len() - 1] == last);
        assert(held(last as int));
        assert(!held_before(last as int)) by {
            if init.contains(last) {
                let i = choose|i: int| 0 <= i < init.len() && init[i] == last;
                assert(list[i] == list[list.len() - 1]);
            }
        }
        assert forall|u: int| 0 <= u < n && u != last implies #[trigger] held(u) == held_before(
            u,
        ) by {
            if list.contains(u as usize) {
                let i = choose|i: int| 0 <= i < list.len() && list[i] == u as usize;
                assert(init[i] == u as usize);
            }
            if init.contains(u as usize) {
                let i = choose|i: int| 0 <= i < init.len() && init[i] == u as usize;
                assert(list[i] == u as usize);
            }
        }
        lemma_sum_remove(n, held, held_before, |i: int| 1nat, last as int);
    }
}

/// Where one weight falls, the sum falls as much if the index is counted.
pub proof fn lemma_sum_lighter(
    n: nat,
    keep: spec_fn(int) -> bool,
    weight: spec_fn(int) -> nat,
    weight2: spec_fn(int) -> nat,
    k: int,
)
    requires
        0 <= k < n,
        keep(k),
        weight2(k) <= weight(k),
        forall|i: int| 0 <= i < n && i != k ==> #[trigger] weight(i) == weight2(i),
    ensures
        sum_where(n, keep, weight) == sum_where(n, keep, weight2) + (weight(k) - weight2(k)),
    decreases n,
{
    if k == n - 1 {
        lemma_sum_same((n - 1) as nat, keep, weight, keep, weight2);
    } else {
        lemma_sum_lighter((n - 1) as nat, keep, weight, weight2, k);
    }
}

} // verus!
