use crate::generator::count::count_where;
use crate::generator::count::lemma_count_one;
use crate::generator::count::lemma_sum_prefix;
use crate::generator::count::lemma_sum_same;
use crate::generator::count::sum_where;
use crate::generator::domain::DomainState;
use crate::generator::lemma_invariant;
use crate::generator::observer::GenerationStatus;
use crate::generator::observer::GeneratorError;
use crate::generator::observer::InternalStatus;
use crate::generator::observer::ModelSelectionHeuristic;
use crate::generator::observer::NodeSelectionHeuristic;
use crate::generator::rules::Rules;
use crate::generator::selection::is_nth;
use crate::generator::selection::picked_cell;
use crate::generator::selection::picked_variant;
use crate::generator::selection::tied;
use crate::generator::selection::unfixed;
use crate::generator::trail::drain_trail;
use crate::generator::trail::lemma_drain_unique;
use crate::generator::trail::settled;
use crate::generator::Generator;
use vstd::prelude::*;

verus! {

/// Two indices of the same rank among the indices that are kept are one index.
pub proof fn lemma_nth_unique(keep: spec_fn(int) -> bool, rank: int, i: int, j: int)
    requires
        0 <= i,
        0 <= j,
        is_nth(keep, rank, i),
        is_nth(keep, rank, j),
    ensures
        i == j,
{
    if i < j {
        lemma_sum_prefix(j as nat, (i + 1) as nat, keep, |k: int| 1nat);
        assert(count_where((i + 1) as nat, keep) == count_where(i as nat, keep) + 1);
    } else if j < i {
        lemma_sum_prefix(i as nat, (j + 1) as nat, keep, |k: int| 1nat);
        assert(count_where((j + 1) as nat, keep) == count_where(j as nat, keep) + 1);
    }
}

/// Whether two states hold the same domains and the same jitter.
pub open spec fn same_domains(a: DomainState, b: DomainState) -> bool {
    &&& a.cells() == b.cells()
    &&& forall|c: int| 0 <= c < a.cells() ==> #[trigger] a.domain(c) == b.domain(c)
    &&& forall|c: int| 0 <= c < a.cells() ==> #[trigger] a.spec_jitter(c) == b.spec_jitter(c)
}

/// The heuristics choose one cell: in two states with the same domains and
/// jitter, from the same random numbers, the chosen cells are the same, and
/// as many numbers are drawn.
pub proof fn lemma_picked_cell_unique(
    rules: Rules,
    a: DomainState,
    b: DomainState,
    heuristic: NodeSelectionHeuristic,
    rng: u64,
    cell_a: int,
    rng_a: u64,
    cell_b: int,
    rng_b: u64,
)
    requires
        same_domains(a, b),
        picked_cell(rules, a, heuristic, rng, cell_a, rng_a),
        picked_cell(rules, b, heuristic, rng, cell_b, rng_b),
    ensures
        cell_a == cell_b,
        rng_a == rng_b,
{
    let cells = a.cells();
    assert(a.domain(cell_b) == b.domain(cell_b));
    assert(a.domain(cell_a) == b.domain(cell_a));
    assert(a.spec_jitter(cell_a) == b.spec_jitter(cell_a));
    assert(a.spec_jitter(cell_b) == b.spec_jitter(cell_b));
    match heuristic {
        NodeSelectionHeuristic::Random => {
            let keep_a = unfixed(a);
            let keep_b = unfixed(b);
            assert forall|c: int| 0 <= c < cells implies #[trigger] keep_a(c) == keep_b(c) by {
                assert(a.domain(c) == b.domain(c));
            }
            lemma_sum_same(cells, keep_a, |i: int| 1nat, keep_b, |i: int| 1nat);
            lemma_sum_same(cell_b as nat, keep_a, |i: int| 1nat, keep_b, |i: int| 1nat);
            let rank = crate::generator::selection::drawn_below(rng, count_where(cells, keep_a));
            assert(is_nth(keep_a, rank, cell_b));
            lemma_nth_unique(keep_a, rank, cell_a, cell_b);
        },
        NodeSelectionHeuristic::MinimumRemainingValue => {
            let key_a = a.spec_entropy(rules, cell_a);
            let key_b = b.spec_entropy(rules, cell_b);
            assert(a.spec_count(cell_b) > 1);
            assert(b.spec_count(cell_a) > 1);
            assert(a.spec_entropy(rules, cell_b) == key_b);
            assert(b.spec_entropy(rules, cell_a) == key_a);
            assert(key_a == key_b);
            let keep_a = tied(rules, a, key_a);
            let keep_b = tied(rules, b, key_b);
            assert forall|c: int| 0 <= c < cells implies #[trigger] keep_a(c) == keep_b(c) by {
                assert(a.domain(c) == b.domain(c));
                assert(a.spec_jitter(c) == b.spec_jitter(c));
            }
            lemma_sum_same(cells, keep_a, |i: int| 1nat, keep_b, |i: int| 1nat);
            lemma_sum_same(cell_b as nat, keep_a, |i: int| 1nat, keep_b, |i: int| 1nat);
            let ties = count_where(cells, keep_a);
            assert(keep_a(cell_a));
            assert(keep_a(cell_b));
            if ties == 1 {
                lemma_count_one(cells, keep_a, cell_a, cell_b);
            } else {
                let rank = crate::generator::selection::drawn_below(rng, ties);
                assert(is_nth(keep_a, rank, cell_b));
                lemma_nth_unique(keep_a, rank, cell_a, cell_b);
            }
        },
    }
}

/// The heuristics choose one variant: in two states with the same domains,
/// from the same random number, the chosen variants are the same.
pub proof fn lemma_picked_variant_unique(
    rules: Rules,
    a: DomainState,
    b: DomainState,
    heuristic: ModelSelectionHeuristic,
    cell: int,
    rng: u64,
    variant_a: int,
    variant_b: int,
)
    requires
        same_domains(a, b),
        0 <= cell < a.cells(),
        picked_variant(rules, a, heuristic, cell, rng, variant_a),
        picked_variant(rules, b, heuristic, cell, rng, variant_b),
    ensures
        variant_a == variant_b,
{
    let domain = a.domain(cell);
    assert(domain == b.domain(cell));
    let total = crate::generator::domain::weight_total(rules.variants(), domain);
    if heuristic == ModelSelectionHeuristic::WeightedProbability && total > 0 {
        let held = |v: int| domain[v];
        let weights = |v: int| rules.variants()[v].weight as nat;
        if variant_a < variant_b {
            lemma_sum_prefix(variant_b as nat, (variant_a + 1) as nat, held, weights);
        } else if variant_b < variant_a {
            lemma_sum_prefix(variant_a as nat, (variant_b + 1) as nat, held, weights);
        }
    } else {
        let held = |v: int| domain[v];
        let rank = crate::generator::selection::drawn_below(
            rng,
            crate::generator::count::count_true(domain),
        );
        lemma_nth_unique(held, rank, variant_a, variant_b);
    }
}

/// A step is determined by the generator that makes it: two generators
/// that stand alike give the same result and stand alike after the step,
/// with the same log.
pub proof fn lemma_step_deterministic(
    a0: Generator,
    a1: Generator,
    result_a: Result<GenerationStatus, GeneratorError>,
    b0: Generator,
    b1: Generator,
    result_b: Result<GenerationStatus, GeneratorError>,
)
    requires
        a0.wf(),
        b0.wf(),
        a0.same_state(b0),
        a1.same_setup(a0),
        b1.same_setup(b0),
        Generator::step_result(a0, a1, result_a),
        Generator::step_result(b0, b1, result_b),
    ensures
        result_a == result_b,
        a1.same_state(b1),
{
    reveal(Generator::step_result);
    lemma_invariant(a0);
    lemma_invariant(b0);
    let rules = a0.spec_rules();
    let grid = a0.spec_grid();
    let cells = grid.spec_total_size();
    assert(same_domains(a0.state(), b0.state())) by {
        assert forall|c: int| 0 <= c < a0.state().cells() implies #[trigger] a0.state().domain(c)
            == b0.state().domain(c) by {
            assert(a0.engine().domains()[c] == b0.engine().domains()[c]);
        }
    }
    lemma_all_fixed_alike(a0, b0);
    match a0.spec_status() {
        InternalStatus::Ongoing => {
            if !a0.all_fixed() {
                let (cell_a, variant_a, mid_a) = choose|cell: int, variant: int, rng_mid: u64|
                    {
                        &&& #[trigger] picked_cell(
                            rules,
                            a0.state(),
                            a0.node_heuristic(),
                            a0.rng_state(),
                            cell,
                            rng_mid,
                        )
                        &&& #[trigger] picked_variant(
                            rules,
                            a0.state(),
                            a0.model_heuristic(),
                            cell,
                            rng_mid,
                            variant,
                        )
                        &&& Generator::collapse_result(a0, a1, result_a, cell, variant, rng_mid)
                        &&& Generator::trail_result(a0, a1, result_a, cell, variant)
                    };
                let (cell_b, variant_b, mid_b) = choose|cell: int, variant: int, rng_mid: u64|
                    {
                        &&& #[trigger] picked_cell(
                            rules,
                            b0.state(),
                            b0.node_heuristic(),
                            b0.rng_state(),
                            cell,
                            rng_mid,
                        )
                        &&& #[trigger] picked_variant(
                            rules,
                            b0.state(),
                            b0.model_heuristic(),
                            cell,
                            rng_mid,
                            variant,
                        )
                        &&& Generator::collapse_result(b0, b1, result_b, cell, variant, rng_mid)
                        &&& Generator::trail_result(b0, b1, result_b, cell, variant)
                    };
                lemma_picked_cell_unique(
                    rules,
                    a0.state(),
                    b0.state(),
                    a0.node_heuristic(),
                    a0.rng_state(),
                    cell_a,
                    mid_a,
                    cell_b,
                    mid_b,
                );
                lemma_picked_variant_unique(
                    rules,
                    a0.state(),
                    b0.state(),
                    a0.model_heuristic(),
                    cell_a,
                    mid_a,
                    variant_a,
                    variant_b,
                );
                lemma_same_after(a0, a1, result_a, b0, b1, result_b, cell_a, variant_a, mid_a);
            }
        },
        _ => {},
    }
}

/// Two generators with the same domains have every cell fixed together.
proof fn lemma_all_fixed_alike(a: Generator, b: Generator)
    requires
        a.engine().domains() == b.engine().domains(),
    ensures
        a.all_fixed() == b.all_fixed(),
{
    let cells = a.state().cells();
    assert(a.engine().domains().len() == cells);
    assert(b.engine().domains().len() == b.state().cells());
    assert forall|c: int| 0 <= c < cells implies #[trigger] a.state().spec_count(c)
        == b.state().spec_count(c) by {
        assert(a.engine().domains()[c] == a.state().domain(c));
        assert(b.engine().domains()[c] == b.state().domain(c));
    }
    if a.all_fixed() {
        assert forall|c: int| 0 <= c < b.state().cells() implies #[trigger] b.state().spec_count(c)
            == 1 by {
            assert(a.state().spec_count(c) == 1);
        }
    }
    if b.all_fixed() {
        assert forall|c: int| 0 <= c < a.state().cells() implies #[trigger] a.state().spec_count(c)
            == 1 by {
            assert(b.state().spec_count(c) == 1);
        }
    }
}

/// Two generators that stand alike and collapse the same cell to the same
/// variant give the same result and stand alike after the step.
proof fn lemma_same_after(
    a0: Generator,
    a1: Generator,
    result_a: Result<GenerationStatus, GeneratorError>,
    b0: Generator,
    b1: Generator,
    result_b: Result<GenerationStatus, GeneratorError>,
    cell: int,
    variant: int,
    rng_mid: u64,
)
    requires
        a0.wf(),
        b0.wf(),
        a0.same_state(b0),
        a1.same_setup(a0),
        b1.same_setup(b0),
        Generator::collapse_result(a0, a1, result_a, cell, variant, rng_mid),
        Generator::trail_result(a0, a1, result_a, cell, variant),
        Generator::collapse_result(b0, b1, result_b, cell, variant, rng_mid),
        Generator::trail_result(b0, b1, result_b, cell, variant),
    ensures
        result_a == result_b,
        a1.same_state(b1),
{
    lemma_invariant(a0);
    lemma_invariant(b0);
    let rules = a0.spec_rules();
    let grid = a0.spec_grid();
    let cells = grid.spec_total_size();
    let origin = Generator::collapse_trail(a0, cell, variant);
    assert(a0.engine().wave(None) == b0.engine().wave(None));
    assert(origin == Generator::collapse_trail(b0, cell, variant));
    let rounds_a = choose|rounds: nat|
        {
            let end = #[trigger] drain_trail(rules, grid, origin, rounds);
            &&& settled(end)
            &&& end.dead is None <==> crate::generator::closure_alive(
                rules,
                grid,
                crate::generator::propagation::collapsed(a0.engine().domains(), cell, variant),
            )
            &&& Generator::end_result(a0, a1, result_a, end)
        };
    let rounds_b = choose|rounds: nat|
        {
            let end = #[trigger] drain_trail(rules, grid, origin, rounds);
            &&& settled(end)
            &&& end.dead is None <==> crate::generator::closure_alive(
                rules,
                grid,
                crate::generator::propagation::collapsed(b0.engine().domains(), cell, variant),
            )
            &&& Generator::end_result(b0, b1, result_b, end)
        };
    lemma_drain_unique(rules, grid, origin, rounds_a, rounds_b);
    let end = drain_trail(rules, grid, origin, rounds_a);
    assert(Generator::end_result(a0, a1, result_a, end));
    assert(Generator::end_result(b0, b1, result_b, end));
    if end.dead is None {
        lemma_all_fixed_alike(a1, b1);
    } else if a0.spec_retry_count() < a0.spec_max_retry_count() {
        assert(a1.state().pending() == b1.state().pending());
    }
}

/// Two generators that were just built from the same rules, grid,
/// heuristics, ceiling and seed stand alike.
pub proof fn lemma_fresh_alike(a: Generator, b: Generator)
    requires
        a.is_fresh(),
        b.is_fresh(),
        a.same_setup(b),
    ensures
        a.same_state(b),
{
    let cells = a.spec_grid().spec_total_size();
    assert(a.spec_rules() == b.spec_rules());
    assert(a.spec_grid() == b.spec_grid());
    assert(a.spec_seed() == b.spec_seed());
    assert(a.events() == b.events());
    assert(a.engine().domains() == b.engine().domains());
    assert(a.engine().counters() == b.engine().counters());
    assert(a.state().pending() == b.state().pending());
    assert(a.rng_state() == b.rng_state());
    assert forall|c: int| 0 <= c < cells implies #[trigger] a.state().spec_jitter(c)
        == b.state().spec_jitter(c) by {}
}

/// Determinism under a seed: two runs of as many steps from generators
/// that stand alike give the same results, and after each step the two
/// generators stand alike; in particular their logs are the same.
pub proof fn lemma_runs_deterministic(
    trace_a: Seq<Generator>,
    results_a: Seq<Result<GenerationStatus, GeneratorError>>,
    trace_b: Seq<Generator>,
    results_b: Seq<Result<GenerationStatus, GeneratorError>>,
    step: int,
)
    requires
        Generator::is_run(trace_a, results_a),
        Generator::is_run(trace_b, results_b),
        trace_a[0].same_state(trace_b[0]),
        0 <= step <= results_a.len(),
        step <= results_b.len(),
    ensures
        trace_a[step].same_state(trace_b[step]),
        trace_a[step].events() == trace_b[step].events(),
        forall|i: int| 0 <= i < step ==> results_a[i] == results_b[i],
    decreases step,
{
    if step > 0 {
        lemma_runs_deterministic(trace_a, results_a, trace_b, results_b, step - 1);
        crate::generator::lemma_run_step(trace_a, results_a, step - 1);
        crate::generator::lemma_run_step(trace_b, results_b, step - 1);
        lemma_step_deterministic(
            trace_a[step - 1],
            trace_a[step],
            results_a[step - 1],
            trace_b[step - 1],
            trace_b[step],
            results_b[step - 1],
        );
    }
}

/// Two runs that come to their end from generators that stand alike take
/// as many steps: a run ends with the first step that does not leave the
/// generation ongoing.
pub proof fn lemma_runs_end_together(
    trace_a: Seq<Generator>,
    results_a: Seq<Result<GenerationStatus, GeneratorError>>,
    trace_b: Seq<Generator>,
    results_b: Seq<Result<GenerationStatus, GeneratorError>>,
)
    requires
        Generator::is_run(trace_a, results_a),
        Generator::is_run(trace_b, results_b),
        trace_a[0].same_state(trace_b[0]),
        results_a.len() > 0,
        results_b.len() > 0,
        results_a.last() != Ok::<GenerationStatus, GeneratorError>(GenerationStatus::Ongoing),
        results_b.last() != Ok::<GenerationStatus, GeneratorError>(GenerationStatus::Ongoing),
    ensures
        results_a == results_b,
        trace_a.last().same_state(trace_b.last()),
        trace_a.last().events() == trace_b.last().events(),
{
    let shorter = if results_a.len() <= results_b.len() {
        results_a.len() as int
    } else {
        results_b.len() as int
    };
    lemma_runs_deterministic(trace_a, results_a, trace_b, results_b, shorter);
    crate::generator::lemma_run_step(trace_a, results_a, shorter - 1);
    crate::generator::lemma_run_step(trace_b, results_b, shorter - 1);
    assert(results_a[shorter - 1] == results_b[shorter - 1]);
    if results_a.len() < results_b.len() {
        assert(results_b[shorter - 1] == Ok::<GenerationStatus, GeneratorError>(
            GenerationStatus::Ongoing,
        ));
    } else if results_b.len() < results_a.len() {
        assert(results_a[shorter - 1] == Ok::<GenerationStatus, GeneratorError>(
            GenerationStatus::Ongoing,
        ));
    }
    assert(results_a =~= results_b);
}

} // verus!
