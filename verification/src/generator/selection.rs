use crate::generator::count::count_true;
use crate::generator::count::count_where;
use crate::generator::count::lemma_count_zero;
use crate::generator::count::lemma_sum_prefix;
use crate::generator::count::sum_where;
use crate::generator::domain::weight_total;
use crate::generator::domain::DomainState;
use crate::generator::observer::ModelSelectionHeuristic;
use crate::generator::observer::NodeSelectionHeuristic;
use crate::generator::rng::next_state;
use crate::generator::rng::output;
use crate::generator::rng::Rng;
use crate::generator::rules::Rules;
use vstd::prelude::*;

verus! {

/// The cells that are not fixed: those with more than one variant left.
pub open spec fn unfixed(state: DomainState) -> spec_fn(int) -> bool {
    |c: int| state.spec_count(c) > 1
}

/// The cells that are not fixed and have the entropy `key`.
pub open spec fn tied(rules: Rules, state: DomainState, key: nat) -> spec_fn(int) -> bool {
    |c: int| state.spec_count(c) > 1 && state.spec_entropy(rules, c) == key
}

/// The number drawn in the state `rng`, reduced to a number below `bound`.
pub open spec fn drawn_below(rng: u64, bound: nat) -> int {
    (output(rng) as int) % (bound as int)
}

/// Whether `index` is among the indices for which `keep` holds, and `rank`
/// such indices come before it.
pub open spec fn is_nth(keep: spec_fn(int) -> bool, rank: int, index: int) -> bool {
    keep(index) && count_where(index as nat, keep) == rank
}

/// Whether `cell` is the cell that the heuristic chooses in `state`, with
/// the random numbers drawn from `rng_before`, which leaves `rng_after`.
/// At random: the drawn number, reduced to the number of cells that are not
/// fixed, is the rank of the cell among them. By entropy: no cell that is
/// not fixed has a smaller entropy; if the cell is alone with its entropy,
/// no number is drawn; else the drawn number, reduced to the number of cells
/// with that entropy, is the rank of the cell among them.
pub open spec fn picked_cell(
    rules: Rules,
    state: DomainState,
    heuristic: NodeSelectionHeuristic,
    rng_before: u64,
    cell: int,
    rng_after: u64,
) -> bool {
    let cells = state.cells();
    &&& 0 <= cell < cells
    &&& state.spec_count(cell) > 1
    &&& match heuristic {
        NodeSelectionHeuristic::Random => {
            &&& is_nth(
                unfixed(state),
                drawn_below(rng_before, count_where(cells, unfixed(state))),
                cell,
            )
            &&& rng_after == next_state(rng_before)
        },
        NodeSelectionHeuristic::MinimumRemainingValue => {
            let key = state.spec_entropy(rules, cell);
            let ties = count_where(cells, tied(rules, state, key));
            &&& forall|c: int|
                0 <= c < cells && #[trigger] state.spec_count(c) > 1 ==> state.spec_entropy(
                    rules,
                    c,
                ) >= key
            &&& if ties == 1 {
                rng_after == rng_before
            } else {
                &&& is_nth(tied(rules, state, key), drawn_below(rng_before, ties), cell)
                &&& rng_after == next_state(rng_before)
            }
        },
    }
}

/// Whether `variant` is the variant that the heuristic chooses in `cell`,
/// with the random number drawn from `rng_before`. Each as likely as the
/// other: the drawn number, reduced to the number of variants in the
/// domain, is the rank of the variant among them. By weight: the drawn
/// number, reduced to the sum of the weights in the domain, falls into the
/// variant's share of that sum, the shares lying in the order of the
/// variants; where all the weights are zero, each is as likely as the other.
pub open spec fn picked_variant(
    rules: Rules,
    state: DomainState,
    heuristic: ModelSelectionHeuristic,
    cell: int,
    rng_before: u64,
    variant: int,
) -> bool {
    let domain = state.domain(cell);
    let total = weight_total(rules.variants(), domain);
    let by_weight = heuristic == ModelSelectionHeuristic::WeightedProbability && total > 0;
    &&& 0 <= variant < rules.variants().len()
    &&& state.possible(cell, variant)
    &&& if by_weight {
        let drawn = drawn_below(rng_before, total);
        sum_where(variant as nat, |v: int| domain[v], |v: int| rules.variants()[v].weight as nat)
            <= drawn < sum_where(
            (variant + 1) as nat,
            |v: int| domain[v],
            |v: int| rules.variants()[v].weight as nat,
        )
    } else {
        is_nth(|v: int| domain[v], drawn_below(rng_before, count_true(domain)), variant)
    }
}

/// The index of rank `rank` among the `count` cells for which `wanted`
/// holds: `wanted` is what `is_wanted` computes.
fn nth_cell(
    rules: &Rules,
    state: &DomainState,
    by_entropy: bool,
    key: u64,
    rank: usize,
    Ghost(wanted): Ghost<spec_fn(int) -> bool>,
) -> (cell: usize)
    requires
        state.wf(*rules),
        forall|c: int|
            0 <= c < state.cells() ==> #[trigger] wanted(c) == (state.spec_count(c) > 1 && (
            !by_entropy || state.spec_entropy(*rules, c) == key)),
        rank < count_where(state.cells(), wanted),
    ensures
        cell < state.cells(),
        is_nth(wanted, rank as int, cell as int),
{
    let cells = state.cells_count();
    let mut seen: usize = 0;
    let mut c: usize = 0;
    while c < cells
        invariant
            c <= cells,
            cells == state.cells(),
            state.wf(*rules),
            forall|x: int|
                0 <= x < state.cells() ==> #[trigger] wanted(x) == (state.spec_count(x) > 1 && (
                !by_entropy || state.spec_entropy(*rules, x) == key)),
            seen == count_where(c as nat, wanted),
            seen <= rank,
            rank < count_where(cells as nat, wanted),
        decreases cells - c,
    {
        let is_wanted = state.count(rules, c) > 1 && (!by_entropy || state.entropy(rules, c)
            == key);
        assert(is_wanted == wanted(c as int));
        if is_wanted {
            if seen == rank {
                return c;
            }
            seen += 1;
        }
        c += 1;
    }
    0
}

/// Chooses the cell to collapse, if any cell is not fixed.
pub fn select_cell(
    rules: &Rules,
    state: &DomainState,
    heuristic: NodeSelectionHeuristic,
    rng: &mut Rng,
) -> (chosen: Option<usize>)
    requires
        state.wf(*rules),
    ensures
        match chosen {
            Some(cell) => picked_cell(
                *rules,
                *state,
                heuristic,
                old(rng).state(),
                cell as int,
                final(rng).state(),
            ),
            None => final(rng).state() == old(rng).state() && forall|c: int|
                0 <= c < state.cells() ==> #[trigger] state.spec_count(c) <= 1,
        },
{
    let cells = state.cells_count();
    let mut open_cells: usize = 0;
    let mut found = false;
    let mut best: u64 = 0;
    let mut ties: usize = 0;
    let mut c: usize = 0;
    while c < cells
        invariant
            c <= cells,
            cells == state.cells(),
            state.wf(*rules),
            open_cells == count_where(c as nat, unfixed(*state)),
            open_cells <= c,
            found == (open_cells > 0),
            found ==> {
                &&& ties == count_where(c as nat, tied(*rules, *state, best as nat))
                &&& 0 < ties <= c
                &&& forall|x: int|
                    0 <= x < c && #[trigger] state.spec_count(x) > 1 ==> state.spec_entropy(
                        *rules,
                        x,
                    ) >= best
            },
        decreases cells - c,
    {
        if state.count(rules, c) > 1 {
            let key = state.entropy(rules, c);
            assert(unfixed(*state)(c as int));
            if !found || key < best {
                proof {
                    let fresh = tied(*rules, *state, key as nat);
                    assert forall|x: int| 0 <= x < c implies !#[trigger] fresh(x) by {
                        if state.spec_count(x) > 1 {
                            if found {
                                assert(state.spec_entropy(*rules, x) >= best);
                            } else {
                                lemma_count_zero(c as nat, unfixed(*state));
                                assert(!unfixed(*state)(x));
                            }
                        }
                    }
                    lemma_count_zero(c as nat, fresh);
                    assert(fresh(c as int));
                }
                proof {
                    assert forall|x: int|
                        0 <= x < c + 1 && #[trigger] state.spec_count(x)
                            > 1 implies state.spec_entropy(*rules, x) >= key by {
                        if x < c {
                            if found {
                                assert(state.spec_entropy(*rules, x) >= best);
                            } else {
                                lemma_count_zero(c as nat, unfixed(*state));
                                assert(!unfixed(*state)(x));
                            }
                        }
                    }
                }
                best = key;
                ties = 1;
                found = true;
            } else if key == best {
                assert(tied(*rules, *state, best as nat)(c as int));
                ties += 1;
            } else {
                assert(!tied(*rules, *state, best as nat)(c as int));
            }
            open_cells += 1;
        } else {
            assert(!unfixed(*state)(c as int));
            assert(!tied(*rules, *state, best as nat)(c as int));
        }
        c += 1;
    }
    if !found {
        proof {
            lemma_count_zero(cells as nat, unfixed(*state));
            assert forall|x: int| 0 <= x < state.cells() implies #[trigger] state.spec_count(x)
                <= 1 by {
                assert(!unfixed(*state)(x));
            }
        }
        return None;
    }
    match heuristic {
        NodeSelectionHeuristic::Random => {
            let rank = rng.below(open_cells as u64) as usize;
            let cell = nth_cell(rules, state, false, 0, rank, Ghost(unfixed(*state)));
            Some(cell)
        },
        NodeSelectionHeuristic::MinimumRemainingValue => {
            let rank = if ties == 1 {
                0
            } else {
                rng.below(ties as u64) as usize
            };
            let cell = nth_cell(
                rules,
                state,
                true,
                best,
                rank,
                Ghost(tied(*rules, *state, best as nat)),
            );
            proof {
                assert(tied(*rules, *state, best as nat)(cell as int));
            }
            Some(cell)
        },
    }
}

/// Chooses the variant to which `cell` is collapsed.
pub fn select_variant(
    rules: &Rules,
    state: &DomainState,
    heuristic: ModelSelectionHeuristic,
    cell: usize,
    rng: &mut Rng,
) -> (variant: usize)
    requires
        state.wf(*rules),
        cell < state.cells(),
        state.spec_count(cell as int) > 0,
    ensures
        picked_variant(*rules, *state, heuristic, cell as int, old(rng).state(), variant as int),
        final(rng).state() == next_state(old(rng).state()),
{
    let count = rules.models_count();
    let ghost domain = state.domain(cell as int);
    let ghost weights = |v: int| rules.variants()[v].weight as nat;
    let ghost held = |v: int| domain[v];
    let total = state.weight_sum(rules, cell);
    assert(domain.len() == count);
    let by_weight = match heuristic {
        ModelSelectionHeuristic::WeightedProbability => total > 0,
        ModelSelectionHeuristic::Uniform => false,
    };
    if by_weight {
        let drawn = rng.below(total);
        let mut reached: u64 = 0;
        let mut v: usize = 0;
        while v < count
            invariant
                v <= count,
                count == rules.variants().len(),
                state.wf(*rules),
                cell < state.cells(),
                domain == state.domain(cell as int),
                weights == (|v: int| rules.variants()[v].weight as nat),
                held == (|v: int| domain[v]),
                total == sum_where(count as nat, held, weights),
                reached == sum_where(v as nat, held, weights),
                reached <= drawn < total,
                drawn == drawn_below(old(rng).state(), total as nat),
                rng.state() == next_state(old(rng).state()),
                by_weight,
                by_weight == (heuristic == ModelSelectionHeuristic::WeightedProbability && total
                    > 0),
            decreases count - v,
        {
            proof {
                lemma_sum_prefix(count as nat, (v + 1) as nat, held, weights);
            }
            if state.is_possible(rules, cell, v) {
                let weight = rules.weight(v);
                reached = reached + weight as u64;
                if drawn < reached {
                    return v;
                }
            }
            v += 1;
        }
        0
    } else {
        let members = state.count(rules, cell);
        let rank = rng.below(members as u64) as usize;
        let mut seen: usize = 0;
        let mut v: usize = 0;
        while v < count
            invariant
                v <= count,
                count == rules.variants().len(),
                state.wf(*rules),
                cell < state.cells(),
                domain == state.domain(cell as int),
                held == (|v: int| domain[v]),
                members == count_where(count as nat, held),
                seen == count_where(v as nat, held),
                seen <= rank < members,
                rank == drawn_below(old(rng).state(), members as nat),
                rng.state() == next_state(old(rng).state()),
                total == weight_total(rules.variants(), domain),
                !by_weight,
                by_weight == (heuristic == ModelSelectionHeuristic::WeightedProbability && total
                    > 0),
            decreases count - v,
        {
            if state.is_possible(rules, cell, v) {
                if seen == rank {
                    return v;
                }
                seen += 1;
            }
            v += 1;
        }
        0
    }
}

} // verus!
