use crate::generator::bitset::BitSet;
use crate::generator::count::count_true;
use crate::generator::count::lemma_count_zero;
use crate::generator::count::lemma_sum_remove;
use crate::generator::count::lemma_sum_same;
use crate::generator::count::sum_where;
use crate::generator::entropy::entropy_of;
use crate::generator::entropy::entropy_proxy;
use crate::generator::entropy::weight_log;
use crate::generator::entropy::weight_log_of;
use crate::generator::node::Variant;
use crate::generator::rng::output;
use crate::generator::rng::state_after;
use crate::generator::rng::Rng;
use crate::generator::rules::Rules;
use vstd::prelude::*;

verus! {

/// The jitter of a cell is below this number.
pub const JITTER_RANGE: u64 = 256;

/// The sum of the weights of the variants in `domain`.
pub open spec fn weight_total(variants: Seq<Variant>, domain: Seq<bool>) -> nat {
    sum_where(variants.len(), |v: int| domain[v], |v: int| variants[v].weight as nat)
}

/// The sum, over the variants in `domain`, of the weight times its logarithm.
pub open spec fn weight_log_total(variants: Seq<Variant>, domain: Seq<bool>) -> nat {
    sum_where(variants.len(), |v: int| domain[v], |v: int| weight_log(variants[v].weight as nat))
}

/// The domain in which every one of `count` variants is possible.
pub open spec fn full_domain(count: nat) -> Seq<bool> {
    Seq::new(count, |v: int| true)
}

/// The entries that collapsing a cell puts on the worklist: one for each
/// variant below `n` that was in the domain and is not the one kept, in
/// rising order.
pub open spec fn removed_entries(domain: Seq<bool>, cell: usize, keep: int, n: nat) -> Seq<
    (usize, usize),
>
    decreases n,
{
    if n == 0 {
        Seq::empty()
    } else {
        let before = removed_entries(domain, cell, keep, (n - 1) as nat);
        if domain[n - 1] && n - 1 != keep {
            before.push((cell, (n - 1) as usize))
        } else {
            before
        }
    }
}

/// When a variant leaves a domain, the two sums fall by what the variant
/// added to them, and the count by one.
pub proof fn lemma_variant_leaves(variants: Seq<Variant>, before: Seq<bool>, k: int)
    requires
        0 <= k < variants.len(),
        before.len() == variants.len(),
        before[k],
    ensures
        weight_total(variants, before) == weight_total(variants, before.update(k, false))
            + variants[k].weight,
        weight_log_total(variants, before) == weight_log_total(variants, before.update(k, false))
            + weight_log(variants[k].weight as nat),
        count_true(before) == count_true(before.update(k, false)) + 1,
{
    let after = before.update(k, false);
    lemma_sum_remove(
        variants.len(),
        |v: int| before[v],
        |v: int| after[v],
        |v: int| variants[v].weight as nat,
        k,
    );
    lemma_sum_remove(
        variants.len(),
        |v: int| before[v],
        |v: int| after[v],
        |v: int| weight_log(variants[v].weight as nat),
        k,
    );
    lemma_sum_remove(before.len(), |v: int| before[v], |v: int| after[v], |v: int| 1nat, k);
}

/// What is still possible in each cell of the grid, with what the solver
/// caches of it, and the removals that were not propagated yet.
pub struct DomainState {
    /// For each cell the variants that are still possible.
    domains: Vec<BitSet>,
    /// For each cell the sum of the weights of its variants.
    weight_sums: Vec<u64>,
    /// For each cell the sum of the weights times their logarithms.
    weight_log_sums: Vec<u128>,
    /// For each cell a small number drawn when the state was made, which
    /// orders cells of equal entropy.
    jitter: Vec<u64>,
    /// The removals, in the order in which they were made; those before
    /// `head` were propagated.
    worklist: Vec<(usize, usize)>,
    head: usize,
}

impl DomainState {
    /// Number of cells.
    pub closed spec fn cells(self) -> nat {
        self.domains@.len()
    }

    /// For each variant, whether it is still possible in `cell`.
    pub closed spec fn domain(self, cell: int) -> Seq<bool> {
        self.domains@[cell]@
    }

    /// The jitter of `cell`.
    pub closed spec fn spec_jitter(self, cell: int) -> u64 {
        self.jitter@[cell]
    }

    /// The removals that were not propagated yet, oldest first: each is a
    /// cell and a variant.
    pub closed spec fn pending(self) -> Seq<(usize, usize)> {
        self.worklist@.subrange(self.head as int, self.worklist@.len() as int)
    }

    /// Whether the sums that are kept for each cell are the sums over the
    /// cell's domain.
    pub closed spec fn sums_cached(self, variants: Seq<Variant>) -> bool {
        &&& self.weight_sums@.len() == self.domains@.len()
        &&& self.weight_log_sums@.len() == self.domains@.len()
        &&& self.jitter@.len() == self.domains@.len()
        &&& self.head <= self.worklist@.len()
        &&& forall|c: int|
            0 <= c < self.domains@.len() ==> {
                &&& (#[trigger] self.domains@[c]).wf()
                &&& self.weight_sums@[c] == weight_total(variants, self.domains@[c]@)
                &&& self.weight_log_sums@[c] == weight_log_total(variants, self.domains@[c]@)
            }
    }

    /// Whether `variant` is still possible in `cell`.
    pub open spec fn possible(self, cell: int, variant: int) -> bool {
        self.domain(cell)[variant]
    }

    /// Number of variants that are still possible in `cell`.
    pub open spec fn spec_count(self, cell: int) -> nat {
        count_true(self.domain(cell))
    }

    /// The measure by which `cell` is ordered among the cells: the entropy
    /// proxy of its domain, and its jitter.
    pub open spec fn spec_entropy(self, rules: Rules, cell: int) -> nat {
        (entropy_proxy(
            weight_total(rules.variants(), self.domain(cell)),
            weight_log_total(rules.variants(), self.domain(cell)),
        ) + self.spec_jitter(cell)) as nat
    }

    /// The state's invariant: each cell has a domain over the variants of
    /// the rules; the cached sums of a cell are the sums over its domain;
    /// and a pending removal names a cell and a variant that is no longer
    /// in the cell's domain, and is pending once.
    pub open spec fn wf(self, rules: Rules) -> bool {
        &&& self.sums_cached(rules.variants())
        &&& forall|c: int|
            0 <= c < self.cells() ==> (#[trigger] self.domain(c)).len() == rules.variants().len()
        &&& forall|c: int| 0 <= c < self.cells() ==> #[trigger] self.spec_jitter(c) < JITTER_RANGE
        &&& forall|i: int|
            0 <= i < self.pending().len() ==> {
                let entry = #[trigger] self.pending()[i];
                &&& entry.0 < self.cells()
                &&& entry.1 < rules.variants().len()
                &&& !self.possible(entry.0 as int, entry.1 as int)
            }
        &&& self.pending().no_duplicates()
    }

    /// A state for `cells` cells in which every variant of the rules is
    /// possible everywhere and nothing is pending. The jitter of each cell
    /// is drawn from `rng`, cell by cell.
    pub fn initialize(rules: &Rules, cells: usize, rng: &mut Rng) -> (state: DomainState)
        ensures
            state.wf(*rules),
            state.cells() == cells,
            forall|c: int|
                0 <= c < cells ==> #[trigger] state.domain(c) == full_domain(
                    rules.variants().len(),
                ),
            state.pending() == Seq::<(usize, usize)>::empty(),
            forall|c: int|
                0 <= c < cells ==> #[trigger] state.spec_jitter(c) == output(
                    state_after(old(rng).state(), c as nat),
                ) % JITTER_RANGE,
            final(rng).state() == state_after(old(rng).state(), cells as nat),
    {
        let variants_count = rules.models_count();
        let ghost variants = rules.variants();
        let ghost full = full_domain(variants.len());
        let mut weight_sum: u64 = 0;
        let mut weight_log_sum: u128 = 0;
        let mut v: usize = 0;
        while v < variants_count
            invariant
                v <= variants_count,
                variants_count == variants.len(),
                variants == rules.variants(),
                variants_count <= u32::MAX,
                full == full_domain(variants.len()),
                weight_sum == sum_where(
                    v as nat,
                    |u: int| full[u],
                    |u: int| variants[u].weight as nat,
                ),
                weight_log_sum == sum_where(
                    v as nat,
                    |u: int| full[u],
                    |u: int| weight_log(variants[u].weight as nat),
                ),
                weight_sum <= v * 0xFFFF_FFFF,
                weight_log_sum <= v * (0xFFFF_FFFF * (64 * 65536)),
            decreases variants_count - v,
        {
            let weight = rules.weight(v);
            let term = weight_log_of(weight);
            proof {
                assert(v * 0xFFFF_FFFF + 0xFFFF_FFFF == (v + 1) * 0xFFFF_FFFF)
                    by (nonlinear_arith);
                assert(v * (0xFFFF_FFFF * (64 * 65536)) + 0xFFFF_FFFF * (64 * 65536) == (v + 1)
                    * (0xFFFF_FFFF * (64 * 65536))) by (nonlinear_arith);
                assert((v + 1) * 0xFFFF_FFFF <= 0xFFFF_FFFF * 0xFFFF_FFFF) by (nonlinear_arith)
                    requires
                        v + 1 <= 0xFFFF_FFFF,
                ;
                assert((v + 1) * (0xFFFF_FFFF * (64 * 65536)) <= 0xFFFF_FFFF * (0xFFFF_FFFF * (64
                    * 65536))) by (nonlinear_arith)
                    requires
                        v + 1 <= 0xFFFF_FFFF,
                ;
            }
            weight_sum = weight_sum + weight as u64;
            weight_log_sum = weight_log_sum + term;
            v += 1;
        }
        let mut state = DomainState {
            domains: Vec::new(),
            weight_sums: Vec::new(),
            weight_log_sums: Vec::new(),
            jitter: Vec::new(),
            worklist: Vec::new(),
            head: 0,
        };
        let mut c: usize = 0;
        while c < cells
            invariant
                c <= cells,
                variants_count == variants.len(),
                variants == rules.variants(),
                full == full_domain(variants.len()),
                weight_sum == weight_total(variants, full),
                weight_log_sum == weight_log_total(variants, full),
                state.domains@.len() == c,
                state.weight_sums@.len() == c,
                state.weight_log_sums@.len() == c,
                state.jitter@.len() == c,
                state.worklist@.len() == 0,
                state.head == 0,
                forall|k: int|
                    0 <= k < c ==> {
                        &&& (#[trigger] state.domains@[k]).wf()
                        &&& state.domains@[k]@ == full
                        &&& state.weight_sums@[k] == weight_sum
                        &&& state.weight_log_sums@[k] == weight_log_sum
                    },
                forall|k: int|
                    0 <= k < c ==> #[trigger] state.jitter@[k] == output(
                        state_after(old(rng).state(), k as nat),
                    ) % JITTER_RANGE,
                rng.state() == state_after(old(rng).state(), c as nat),
            decreases cells - c,
        {
            state.domains.push(BitSet::new_full(variants_count));
            state.weight_sums.push(weight_sum);
            state.weight_log_sums.push(weight_log_sum);
            let drawn = rng.below(JITTER_RANGE);
            state.jitter.push(drawn);
            c += 1;
        }
        proof {
            assert(state.pending() =~= Seq::<(usize, usize)>::empty());
        }
        state
    }

    /// Number of cells.
    pub fn cells_count(&self) -> (count: usize)
        ensures
            count == self.cells(),
    {
        self.domains.len()
    }

    /// Number of variants that are still possible in `cell`.
    pub fn count(&self, rules: &Rules, cell: usize) -> (count: usize)
        requires
            self.wf(*rules),
            cell < self.cells(),
        ensures
            count == self.spec_count(cell as int),
            count <= rules.variants().len(),
    {
        assert(self.domain(cell as int).len() == rules.variants().len());
        self.domains[cell].count()
    }

    /// Whether `variant` is still possible in `cell`.
    pub fn is_possible(&self, rules: &Rules, cell: usize, variant: usize) -> (possible: bool)
        requires
            self.wf(*rules),
            cell < self.cells(),
            variant < rules.variants().len(),
        ensures
            possible == self.possible(cell as int, variant as int),
    {
        assert(self.domain(cell as int).len() == rules.variants().len());
        self.domains[cell].contains(variant)
    }

    /// Whether nothing is possible in `cell` any more.
    pub fn contradicted(&self, rules: &Rules, cell: usize) -> (contradicted: bool)
        requires
            self.wf(*rules),
            cell < self.cells(),
        ensures
            contradicted == (self.spec_count(cell as int) == 0),
    {
        self.domains[cell].is_empty()
    }

    /// The smallest variant that is still possible in `cell` and at least
    /// `from`, if there is one.
    pub fn next_possible(&self, rules: &Rules, cell: usize, from: usize) -> (found: Option<usize>)
        requires
            self.wf(*rules),
            cell < self.cells(),
        ensures
            match found {
                Some(v) => from <= v < rules.variants().len() && self.possible(
                    cell as int,
                    v as int,
                ) && forall|u: int| from <= u < v ==> !self.possible(cell as int, u),
                None => forall|u: int|
                    from <= u < rules.variants().len() ==> !self.possible(cell as int, u),
            },
    {
        assert(self.domain(cell as int).len() == rules.variants().len());
        self.domains[cell].next_set(from)
    }

    /// The sum of the weights of the variants that are still possible in `cell`.
    pub fn weight_sum(&self, rules: &Rules, cell: usize) -> (sum: u64)
        requires
            self.wf(*rules),
            cell < self.cells(),
        ensures
            sum == weight_total(rules.variants(), self.domain(cell as int)),
    {
        self.weight_sums[cell]
    }

    /// The measure by which `cell` is ordered among the cells.
    pub fn entropy(&self, rules: &Rules, cell: usize) -> (entropy: u64)
        requires
            self.wf(*rules),
            cell < self.cells(),
        ensures
            entropy == self.spec_entropy(*rules, cell as int),
    {
        assert(self.spec_jitter(cell as int) < JITTER_RANGE);
        entropy_of(self.weight_sums[cell], self.weight_log_sums[cell]) + self.jitter[cell]
    }

    /// Takes `variant` out of the domain of `cell`. If it was there, the
    /// cell's sums fall by what the variant added to them, and the removal
    /// becomes pending. Says whether it was there.
    pub fn remove(&mut self, rules: &Rules, cell: usize, variant: usize) -> (removed: bool)
        requires
            old(self).wf(*rules),
            cell < old(self).cells(),
            variant < rules.variants().len(),
        ensures
            final(self).wf(*rules),
            final(self).cells() == old(self).cells(),
            removed == old(self).possible(cell as int, variant as int),
            final(self).domain(cell as int) == old(self).domain(cell as int).update(
                variant as int,
                false,
            ),
            forall|c: int|
                0 <= c < old(self).cells() && c != cell ==> #[trigger] final(self).domain(c) == old(
                    self,
                ).domain(c),
            forall|c: int|
                0 <= c < old(self).cells() ==> #[trigger] final(self).spec_jitter(c) == old(
                    self,
                ).spec_jitter(c),
            final(self).pending() == if removed {
                old(self).pending().push((cell, variant))
            } else {
                old(self).pending()
            },
    {
        let ghost variants = rules.variants();
        let ghost before = self.domain(cell as int);
        assert(before.len() == variants.len());
        let removed = self.domains[cell].remove(variant);
        proof {
            assert forall|c: int| 0 <= c < old(self).cells() && c != cell implies #[trigger] self.domain(
                c,
            ) == old(self).domain(c) by {
                assert(self.domains@[c] == old(self).domains@[c]);
            }
            assert forall|c: int| 0 <= c < self.cells() implies (#[trigger] self.domain(c)).len()
                == variants.len() by {
                if c != cell {
                    assert(old(self).domain(c).len() == variants.len());
                }
            }
            assert forall|c: int| 0 <= c < self.cells() implies #[trigger] self.spec_jitter(c)
                < JITTER_RANGE by {
                assert(old(self).spec_jitter(c) < JITTER_RANGE);
            }
        }
        if removed {
            let weight = rules.weight(variant);
            let term = weight_log_of(weight);
            proof {
                lemma_variant_leaves(variants, before, variant as int);
            }
            self.weight_sums[cell] = self.weight_sums[cell] - weight as u64;
            self.weight_log_sums[cell] = self.weight_log_sums[cell] - term;
            self.worklist.push((cell, variant));
            proof {
                assert forall|c: int| 0 <= c < self.domains@.len() implies {
                    &&& (#[trigger] self.domains@[c]).wf()
                    &&& self.weight_sums@[c] == weight_total(variants, self.domains@[c]@)
                    &&& self.weight_log_sums@[c] == weight_log_total(variants, self.domains@[c]@)
                } by {
                    if c != cell {
                        assert(self.domains@[c] == old(self).domains@[c]);
                    }
                }
                assert(self.sums_cached(variants));
                assert(self.pending() =~= old(self).pending().push((cell, variant)));
                let pending = self.pending();
                assert forall|i: int| 0 <= i < pending.len() implies {
                    let entry = #[trigger] pending[i];
                    &&& entry.0 < self.cells()
                    &&& entry.1 < variants.len()
                    &&& !self.possible(entry.0 as int, entry.1 as int)
                } by {
                    if i < old(self).pending().len() {
                        let entry = old(self).pending()[i];
                        assert(!old(self).possible(entry.0 as int, entry.1 as int));
                    }
                }
                assert forall|i: int, j: int|
                    0 <= i < pending.len() && 0 <= j < pending.len() && i != j implies pending[i]
                    != pending[j] by {
                    let last = old(self).pending().len() as int;
                    if i < last && j < last {
                    } else if i < last {
                        let entry = old(self).pending()[i];
                        assert(!old(self).possible(entry.0 as int, entry.1 as int));
                    } else {
                        let entry = old(self).pending()[j];
                        assert(!old(self).possible(entry.0 as int, entry.1 as int));
                    }
                }
            }
        } else {
            proof {
                assert(before.update(variant as int, false) =~= before);
                assert forall|c: int| 0 <= c < self.domains@.len() implies {
                    &&& (#[trigger] self.domains@[c]).wf()
                    &&& self.weight_sums@[c] == weight_total(variants, self.domains@[c]@)
                    &&& self.weight_log_sums@[c] == weight_log_total(variants, self.domains@[c]@)
                } by {
                    if c != cell {
                        assert(self.domains@[c] == old(self).domains@[c]);
                    }
                }
                assert(self.sums_cached(variants));
                assert(self.pending() == old(self).pending());
                let pending = self.pending();
                assert forall|i: int| 0 <= i < pending.len() implies {
                    let entry = #[trigger] pending[i];
                    &&& entry.0 < self.cells()
                    &&& entry.1 < variants.len()
                    &&& !self.possible(entry.0 as int, entry.1 as int)
                } by {
                    let entry = old(self).pending()[i];
                    assert(!old(self).possible(entry.0 as int, entry.1 as int));
                }
            }
        }
        proof {
            assert forall|c: int| 0 <= c < self.cells() implies (#[trigger] self.domain(c)).len()
                == variants.len() by {
                if c != cell {
                    assert(self.domains@[c] == old(self).domains@[c]);
                    assert(old(self).domain(c).len() == variants.len());
                }
            }
            assert forall|c: int| 0 <= c < self.cells() implies #[trigger] self.spec_jitter(c)
                < JITTER_RANGE by {
                assert(old(self).spec_jitter(c) < JITTER_RANGE);
            }
        }
        removed
    }

    /// Leaves `variant` alone in the domain of `cell`, if it was there, and
    /// nothing if it was not: every other variant is removed, in rising order.
    pub fn collapse_to(&mut self, rules: &Rules, cell: usize, variant: usize)
        requires
            old(self).wf(*rules),
            cell < old(self).cells(),
            variant < rules.variants().len(),
        ensures
            final(self).wf(*rules),
            final(self).cells() == old(self).cells(),
            final(self).domain(cell as int) == Seq::new(
                rules.variants().len(),
                |u: int| u == variant && old(self).possible(cell as int, u),
            ),
            forall|c: int|
                0 <= c < old(self).cells() && c != cell ==> #[trigger] final(self).domain(c) == old(
                    self,
                ).domain(c),
            forall|c: int|
                0 <= c < old(self).cells() ==> #[trigger] final(self).spec_jitter(c) == old(
                    self,
                ).spec_jitter(c),
            final(self).pending() == old(self).pending() + removed_entries(
                old(self).domain(cell as int),
                cell,
                variant as int,
                rules.variants().len(),
            ),
    {
        let count = rules.models_count();
        let ghost start = self.domain(cell as int);
        let mut u: usize = 0;
        while u < count
            invariant
                u <= count,
                count == rules.variants().len(),
                cell < self.cells(),
                variant < count,
                self.wf(*rules),
                self.cells() == old(self).cells(),
                start == old(self).domain(cell as int),
                start.len() == count,
                self.domain(cell as int) == Seq::new(
                    count as nat,
                    |k: int| start[k] && (k >= u || k == variant),
                ),
                forall|c: int|
                    0 <= c < old(self).cells() && c != cell ==> #[trigger] self.domain(c) == old(
                        self,
                    ).domain(c),
                forall|c: int|
                    0 <= c < old(self).cells() ==> #[trigger] self.spec_jitter(c) == old(
                        self,
                    ).spec_jitter(c),
                self.pending() == old(self).pending() + removed_entries(
                    start,
                    cell,
                    variant as int,
                    u as nat,
                ),
            decreases count - u,
        {
            let ghost before_pending = self.pending();
            let ghost before_domain = self.domain(cell as int);
            if u != variant {
                let removed = self.remove(rules, cell, u);
                proof {
                    assert(removed == start[u as int]);
                    let entries = removed_entries(start, cell, variant as int, u as nat);
                    if removed {
                        assert(self.pending() =~= old(self).pending() + entries.push((cell, u)));
                    }
                }
            }
            proof {
                assert(self.domain(cell as int) =~= Seq::new(
                    count as nat,
                    |k: int| start[k] && (k >= u + 1 || k == variant),
                ));
            }
            u += 1;
        }
        proof {
            assert(self.domain(cell as int) =~= Seq::new(
                rules.variants().len(),
                |k: int| k == variant && old(self).possible(cell as int, k),
            ));
        }
    }

    /// Takes the oldest pending removal off the worklist, if there is one.
    pub fn pop(&mut self, rules: &Rules) -> (entry: Option<(usize, usize)>)
        requires
            old(self).wf(*rules),
        ensures
            final(self).wf(*rules),
            final(self).cells() == old(self).cells(),
            forall|c: int|
                0 <= c < old(self).cells() ==> #[trigger] final(self).domain(c) == old(self).domain(
                    c,
                ),
            forall|c: int|
                0 <= c < old(self).cells() ==> #[trigger] final(self).spec_jitter(c) == old(
                    self,
                ).spec_jitter(c),
            match entry {
                Some(e) => old(self).pending().len() > 0 && e == old(self).pending()[0]
                    && final(self).pending() == old(self).pending().drop_first(),
                None => old(self).pending().len() == 0 && final(self).pending() == old(
                    self,
                ).pending(),
            },
    {
        if self.head < self.worklist.len() {
            let entry = self.worklist[self.head];
            self.head = self.head + 1;
            if self.head == self.worklist.len() {
                self.worklist.clear();
                self.head = 0;
            }
            proof {
                assert(self.sums_cached(rules.variants()));
                assert forall|c: int| 0 <= c < self.cells() implies (#[trigger] self.domain(
                    c,
                )).len() == rules.variants().len() by {
                    assert(old(self).domain(c).len() == rules.variants().len());
                }
                assert forall|c: int| 0 <= c < self.cells() implies #[trigger] self.spec_jitter(c)
                    < JITTER_RANGE by {
                    assert(old(self).spec_jitter(c) < JITTER_RANGE);
                }
                assert(self.pending() =~= old(self).pending().drop_first());
                let pending = self.pending();
                assert forall|i: int| 0 <= i < pending.len() implies {
                    let e = #[trigger] pending[i];
                    &&& e.0 < self.cells()
                    &&& e.1 < rules.variants().len()
                    &&& !self.possible(e.0 as int, e.1 as int)
                } by {
                    assert(pending[i] == old(self).pending()[i + 1]);
                    let e = old(self).pending()[i + 1];
                    assert(!old(self).possible(e.0 as int, e.1 as int));
                }
                assert forall|i: int, j: int|
                    0 <= i < pending.len() && 0 <= j < pending.len() && i != j implies pending[i]
                    != pending[j] by {
                    assert(pending[i] == old(self).pending()[i + 1]);
                    assert(pending[j] == old(self).pending()[j + 1]);
                }
            }
            Some(entry)
        } else {
            None
        }
    }
}

} // verus!
