//! Models, sockets, rules and the solver.
pub mod adjacency;
pub mod bitset;
pub mod builder;
pub mod consistency;
pub mod count;
pub mod determinism;
pub mod domain;
pub mod entropy;
pub mod node;
pub mod observer;
pub mod propagation;
pub mod rng;
pub mod rotation;
pub mod rules;
pub mod selection;
pub mod socket;
pub mod table;
pub mod trail;

use crate::generator::consistency::arc_consistent;
use crate::generator::consistency::in_closure;
use crate::generator::consistency::is_family;
use crate::generator::consistency::keeps_closure;
use crate::generator::consistency::nowhere;
use crate::generator::consistency::within;
use crate::generator::count::count_where;
use crate::generator::count::lemma_count_zero;
use crate::generator::count::lemma_sum_monotone;
use crate::generator::count::lemma_sum_strict;
use crate::generator::domain::DomainState;
use crate::generator::node::GridNode;
use crate::generator::observer::GenInfo;
use crate::generator::observer::GenerationStatus;
use crate::generator::observer::GenerationUpdate;
use crate::generator::observer::GeneratorError;
use crate::generator::observer::InternalStatus;
use crate::generator::observer::ModelSelectionHeuristic;
use crate::generator::observer::NodeSelectionHeuristic;
use crate::generator::propagation::collapsed;
use crate::generator::propagation::collapsing;
use crate::generator::propagation::first_events;
use crate::generator::propagation::fresh_counters;
use crate::generator::trail::drain_trail;
use crate::generator::trail::generated_for;
use crate::generator::trail::settled;
use crate::generator::trail::Trail;
use crate::generator::rng::output;
use crate::generator::domain::JITTER_RANGE;
use crate::generator::propagation::extends;
use crate::generator::propagation::full_domains;
use crate::generator::propagation::lemma_extends;
use crate::generator::propagation::Propagator;
use crate::generator::rng::initial_state;
use crate::generator::rng::next_state;
use crate::generator::rng::state_after;
use crate::generator::rng::Rng;
use crate::generator::rules::Rules;
use crate::generator::selection::picked_cell;
use crate::generator::selection::picked_variant;
use crate::generator::selection::select_cell;
use crate::generator::selection::select_variant;
use crate::generator::selection::unfixed;
use crate::grid::direction::Direction;
use crate::grid::GridDefinition;
use vstd::prelude::*;

verus! {

/// Whether the domain holds a variant.
pub open spec fn inhabited(domain: Seq<bool>) -> bool {
    exists|v: int| 0 <= v < domain.len() && #[trigger] domain[v]
}

/// Whether `cell` has a variant in the greatest arc-consistent family
/// within `start`.
pub open spec fn cell_alive(
    rules: Rules,
    grid: GridDefinition,
    start: Seq<Seq<bool>>,
    cell: int,
) -> bool {
    exists|v: int|
        0 <= v < rules.variants().len() && #[trigger] in_closure(rules, grid, start, cell, v)
}

/// Whether every cell has a variant in the greatest arc-consistent family
/// within `start`.
pub open spec fn closure_alive(rules: Rules, grid: GridDefinition, start: Seq<Seq<bool>>) -> bool {
    forall|c: int|
        0 <= c < grid.spec_total_size() ==> #[trigger] cell_alive(rules, grid, start, c)
}

/// Domains that are arc consistent, within `start`, and hold every
/// arc-consistent family within `start`, are the greatest such family; if
/// they leave every cell a variant, so does that family.
pub proof fn lemma_closure_reached(
    rules: Rules,
    grid: GridDefinition,
    start: Seq<Seq<bool>>,
    after: Seq<Seq<bool>>,
)
    requires
        is_family(rules, grid, after),
        arc_consistent(rules, grid, after),
        within(after, start),
        keeps_closure(rules, grid, start, after),
        forall|c: int| 0 <= c < grid.spec_total_size() ==> inhabited(#[trigger] after[c]),
    ensures
        closure_alive(rules, grid, start),
        forall|c: int, v: int|
            0 <= c < grid.spec_total_size() && 0 <= v < rules.variants().len() ==> (
            #[trigger] after[c][v] <==> in_closure(rules, grid, start, c, v)),
{
    let count = rules.variants().len();
    assert forall|c: int, v: int| 0 <= c < grid.spec_total_size() && 0 <= v < count implies (
    #[trigger] after[c][v] <==> in_closure(rules, grid, start, c, v)) by {
        if in_closure(rules, grid, start, c, v) {
            let family = choose|family: Seq<Seq<bool>>|
                #![trigger arc_consistent(rules, grid, family)]
                is_family(rules, grid, family) && arc_consistent(rules, grid, family) && within(
                    family,
                    start,
                ) && family[c][v];
            assert(within(family, after));
            assert(family[c].len() == count);
        }
    }
    assert forall|c: int| 0 <= c < grid.spec_total_size() implies #[trigger] cell_alive(
        rules,
        grid,
        start,
        c,
    ) by {
        assert(inhabited(after[c]));
        assert(after[c].len() == count);
        let v = choose|v: int| 0 <= v < after[c].len() && #[trigger] after[c][v];
        assert(in_closure(rules, grid, start, c, v));
    }
}

/// Where domains that hold every arc-consistent family within `start`
/// leave a cell no variant, the greatest such family leaves it none.
pub proof fn lemma_closure_dead(
    rules: Rules,
    grid: GridDefinition,
    start: Seq<Seq<bool>>,
    after: Seq<Seq<bool>>,
    cell: int,
)
    requires
        keeps_closure(rules, grid, start, after),
        0 <= cell < grid.spec_total_size(),
        forall|v: int| 0 <= v < rules.variants().len() ==> !#[trigger] after[cell][v],
    ensures
        !closure_alive(rules, grid, start),
        forall|v: int|
            0 <= v < rules.variants().len() ==> !#[trigger] in_closure(rules, grid, start, cell, v),
{
    let count = rules.variants().len();
    assert forall|v: int| 0 <= v < count implies !#[trigger] in_closure(
        rules,
        grid,
        start,
        cell,
        v,
    ) by {
        if in_closure(rules, grid, start, cell, v) {
            let family = choose|family: Seq<Seq<bool>>|
                #![trigger arc_consistent(rules, grid, family)]
                is_family(rules, grid, family) && arc_consistent(rules, grid, family) && within(
                    family,
                    start,
                ) && family[cell][v];
            assert(within(family, after));
            assert(family[cell].len() == count);
            assert(after[cell][v]);
        }
    }
    if closure_alive(rules, grid, start) {
        assert(cell_alive(rules, grid, start, cell));
    }
}

/// The result of a step, without the nodes that the step gave.
pub open spec fn status_of(
    result: Result<(GenerationStatus, Vec<GridNode>), GeneratorError>,
) -> Result<GenerationStatus, GeneratorError> {
    match result {
        Ok((status, nodes)) => Ok(status),
        Err(error) => Err(error),
    }
}

/// The solver: it fills a grid with the variants of the rules, one cell at
/// a time, so that neighbours fit.
pub struct Generator {
    rules: Rules,
    grid: GridDefinition,
    node_selection_heuristic: NodeSelectionHeuristic,
    model_selection_heuristic: ModelSelectionHeuristic,
    max_retry_count: u32,
    seed: u64,
    rng: Rng,
    engine: Propagator,
    retry_count: u32,
    status: InternalStatus,
    generation_epoch: u64,
}

impl Generator {
    /// The rules of the generation.
    pub closed spec fn spec_rules(self) -> Rules {
        self.rules
    }

    /// The grid that is filled.
    pub closed spec fn spec_grid(self) -> GridDefinition {
        self.grid
    }

    /// How the next cell is chosen.
    pub closed spec fn node_heuristic(self) -> NodeSelectionHeuristic {
        self.node_selection_heuristic
    }

    /// How the variant of the chosen cell is chosen.
    pub closed spec fn model_heuristic(self) -> ModelSelectionHeuristic {
        self.model_selection_heuristic
    }

    /// The most new starts that a generation may take.
    pub closed spec fn spec_max_retry_count(self) -> u32 {
        self.max_retry_count
    }

    /// The seed that the generator was built with.
    pub closed spec fn spec_seed(self) -> u64 {
        self.seed
    }

    /// The state of the generator of random numbers.
    pub closed spec fn rng_state(self) -> u64 {
        self.rng.state()
    }

    /// The propagation engine.
    pub closed spec fn engine(self) -> Propagator {
        self.engine
    }

    /// Number of new starts so far.
    pub closed spec fn spec_retry_count(self) -> u32 {
        self.retry_count
    }

    /// Where the generator stands.
    pub closed spec fn spec_status(self) -> InternalStatus {
        self.status
    }

    /// Number of times the domains were made anew.
    pub closed spec fn spec_generation_epoch(self) -> u64 {
        self.generation_epoch
    }

    /// The domains and the worklist.
    pub open spec fn state(self) -> DomainState {
        self.engine().state()
    }

    /// Whether `variant` is still possible in `cell`.
    pub open spec fn possible(self, cell: int, variant: int) -> bool {
        self.state().possible(cell, variant)
    }

    /// Every event since the generator was built, oldest first.
    pub open spec fn events(self) -> Seq<GenerationUpdate> {
        self.engine().events()
    }

    /// Number of cells with more than one variant left.
    pub open spec fn unfixed_count(self) -> nat {
        count_where(self.state().cells(), unfixed(self.state()))
    }

    /// Whether every cell has one variant.
    pub open spec fn all_fixed(self) -> bool {
        forall|c: int| 0 <= c < self.state().cells() ==> #[trigger] self.state().spec_count(c) == 1
    }

    /// Whether `other` was built as this generator was: with the same
    /// rules, grid, heuristics, ceiling of new starts and seed.
    pub open spec fn same_setup(self, other: Generator) -> bool {
        &&& self.spec_rules() == other.spec_rules()
        &&& self.spec_grid() == other.spec_grid()
        &&& self.node_heuristic() == other.node_heuristic()
        &&& self.model_heuristic() == other.model_heuristic()
        &&& self.spec_max_retry_count() == other.spec_max_retry_count()
        &&& self.spec_seed() == other.spec_seed()
    }

    /// The generator's invariant. The domains fit the rules and the grid;
    /// the new starts are within their ceiling. Unless the generation has
    /// failed, nothing waits to be propagated, every cell has a variant
    /// left, the domains are arc consistent, the support counters are
    /// true, and the log is faithful to the domains. When the generation
    /// is done, every cell has one variant.
    pub closed spec fn wf(self) -> bool {
        &&& self.rules.wf()
        &&& self.rules.system() == self.grid.system()
        &&& self.grid.spec_total_size() <= usize::MAX
        &&& self.engine.state().wf(self.rules)
        &&& self.engine.state().cells() == self.grid.spec_total_size()
        &&& self.retry_count <= self.max_retry_count
        &&& match self.status {
            InternalStatus::Failed(cell) => cell < self.grid.spec_total_size(),
            _ => {
                &&& self.engine.consistent(self.rules, self.grid, None, nowhere())
                &&& self.engine.faithful(self.rules)
                &&& self.engine.state().pending().len() == 0
                &&& self.engine.alive()
                &&& arc_consistent(self.rules, self.grid, self.engine.domains())
                &&& self.status is Done ==> self.all_fixed()
            },
        }
    }

    /// What one step does, from the generator before it to the generator
    /// after it and the step's result.
    ///
    /// A generator that is done or has failed says so again and stays as
    /// it is. Else, if every cell is fixed, the generator is done. Else a
    /// cell and a variant are chosen as the heuristics say, with random
    /// numbers drawn for them, and the cell is collapsed to the variant.
    /// If the greatest arc-consistent family within the collapsed domains
    /// leaves every cell a variant, the domains become that family, and
    /// the generator is done if that fixes every cell. If not, there is a
    /// contradiction: with a new start left, every variant becomes
    /// possible again everywhere, a jitter is drawn for each cell, and the
    /// count of new starts rises; with none left, the generation has
    /// failed, in a cell that the family leaves no variant.
    #[verifier::opaque]
    pub open spec fn step_result(
        before: Generator,
        after: Generator,
        result: Result<GenerationStatus, GeneratorError>,
    ) -> bool {
        let rules = before.spec_rules();
        let grid = before.spec_grid();
        match before.spec_status() {
            InternalStatus::Done => {
                &&& result == Ok::<GenerationStatus, GeneratorError>(GenerationStatus::Done)
                &&& after.unchanged(before)
                &&& after.spec_status() == before.spec_status()
            },
            InternalStatus::Failed(cell) => {
                &&& result == Err::<GenerationStatus, GeneratorError>(
                    GeneratorError { node_index: cell },
                )
                &&& after.unchanged(before)
                &&& after.spec_status() == before.spec_status()
            },
            InternalStatus::Ongoing => if before.all_fixed() {
                &&& result == Ok::<GenerationStatus, GeneratorError>(GenerationStatus::Done)
                &&& after.unchanged(before)
                &&& after.spec_status() == InternalStatus::Done
            } else {
                exists|cell: int, variant: int, rng_mid: u64|
                    {
                        &&& #[trigger] picked_cell(
                            rules,
                            before.state(),
                            before.node_heuristic(),
                            before.rng_state(),
                            cell,
                            rng_mid,
                        )
                        &&& #[trigger] picked_variant(
                            rules,
                            before.state(),
                            before.model_heuristic(),
                            cell,
                            rng_mid,
                            variant,
                        )
                        &&& Self::collapse_result(before, after, result, cell, variant, rng_mid)
                        &&& Self::trail_result(before, after, result, cell, variant)
                    }
            },
        }
    }

    /// Whether the generator stands as `before` does, but perhaps for its
    /// status.
    pub open spec fn unchanged(self, before: Generator) -> bool {
        &&& self.events() == before.events()
        &&& self.engine().domains() == before.engine().domains()
        &&& self.engine().counters() == before.engine().counters()
        &&& self.state().pending() == before.state().pending()
        &&& forall|c: int|
            0 <= c < before.spec_grid().spec_total_size() ==> #[trigger] self.state().spec_jitter(
                c,
            ) == before.state().spec_jitter(c)
        &&& self.rng_state() == before.rng_state()
        &&& self.spec_retry_count() == before.spec_retry_count()
        &&& self.engine().attempt_start() == before.engine().attempt_start()
        &&& self.spec_generation_epoch() == before.spec_generation_epoch()
    }

    /// The count of the times the domains were made anew, after one more.
    pub open spec fn next_epoch(epoch: u64) -> u64 {
        if epoch < u64::MAX {
            (epoch + 1) as u64
        } else {
            epoch
        }
    }

    /// Where the propagation of a step starts: `cell` is collapsed to
    /// `variant`, the removals of its other variants wait, and the log
    /// tells of the cell.
    pub open spec fn collapse_trail(before: Generator, cell: int, variant: int) -> Trail {
        Trail {
            wave: collapsing(
                before.engine().wave(None),
                cell,
                variant,
                before.spec_rules().variants().len(),
            ),
            events: before.events().push(generated_for(before.spec_rules(), cell, variant)),
            dead: None,
        }
    }

    /// What a step leaves, given where its propagation came to its end.
    /// With no dead cell, the engine stands where the propagation ended.
    /// With a dead cell and no new start left, the generation fails in
    /// that cell, and the log tells of it. With a new start left, the log
    /// tells of the new start and of the cells that are fixed from the
    /// start, and the counters are those of full domains.
    pub open spec fn end_result(
        before: Generator,
        after: Generator,
        result: Result<GenerationStatus, GeneratorError>,
        end: Trail,
    ) -> bool {
        let rules = before.spec_rules();
        let cells = before.spec_grid().spec_total_size() as nat;
        match end.dead {
            None => {
                &&& result is Ok
                &&& after.events() == end.events
                &&& after.engine().domains() == end.wave.domains
                &&& after.engine().counters() == end.wave.counters
                &&& after.state().pending() == end.wave.pending
            },
            Some(cell) => if before.spec_retry_count() >= before.spec_max_retry_count() {
                &&& result == Err::<GenerationStatus, GeneratorError>(
                    GeneratorError { node_index: cell as usize },
                )
                &&& after.events() == end.events.push(GenerationUpdate::Failed(cell as usize))
                &&& after.engine().domains() == end.wave.domains
                &&& after.engine().counters() == end.wave.counters
                &&& after.state().pending() == end.wave.pending
                &&& after.engine().attempt_start() == after.events().len()
                &&& after.spec_generation_epoch() == before.spec_generation_epoch()
                &&& forall|c: int|
                    0 <= c < cells ==> #[trigger] after.state().spec_jitter(c)
                        == before.state().spec_jitter(c)
            } else {
                &&& after.events() == end.events.push(
                    GenerationUpdate::Reinitializing((before.spec_retry_count() + 1) as u32),
                ) + first_events(rules, cells)
                &&& after.engine().counters() == fresh_counters(rules, cells)
                &&& after.state().pending() == Seq::<(usize, usize)>::empty()
                &&& after.engine().attempt_start() == end.events.len() + 1
                &&& after.spec_generation_epoch() == Self::next_epoch(
                    before.spec_generation_epoch(),
                )
            },
        }
    }

    /// What a step does to the log and the counters once `cell` and
    /// `variant` are chosen: the removals are propagated oldest first,
    /// each list in its order, until none waits or a cell has no variant
    /// left.
    pub open spec fn trail_result(
        before: Generator,
        after: Generator,
        result: Result<GenerationStatus, GeneratorError>,
        cell: int,
        variant: int,
    ) -> bool {
        exists|rounds: nat|
            {
                let end = #[trigger] drain_trail(
                    before.spec_rules(),
                    before.spec_grid(),
                    Self::collapse_trail(before, cell, variant),
                    rounds,
                );
                &&& settled(end)
                &&& end.dead is None <==> closure_alive(
                    before.spec_rules(),
                    before.spec_grid(),
                    collapsed(before.engine().domains(), cell, variant),
                )
                &&& Self::end_result(before, after, result, end)
            }
    }

    /// Whether the generator stands as one that was just built: nothing
    /// is decided, and the generator of random numbers, started from the
    /// seed, has drawn a jitter for each cell.
    pub open spec fn is_fresh(self) -> bool {
        let rules = self.spec_rules();
        let cells = self.spec_grid().spec_total_size() as nat;
        &&& self.spec_retry_count() == 0
        &&& self.spec_status() == InternalStatus::Ongoing
        &&& self.spec_generation_epoch() == 0
        &&& self.engine().attempt_start() == 0
        &&& self.events() == first_events(rules, cells)
        &&& self.engine().domains() == full_domains(cells, rules.variants().len())
        &&& self.engine().counters() == fresh_counters(rules, cells)
        &&& self.state().pending() == Seq::<(usize, usize)>::empty()
        &&& self.rng_state() == state_after(initial_state(self.spec_seed()), cells)
        &&& forall|c: int|
            0 <= c < cells ==> #[trigger] self.state().spec_jitter(c) == output(
                state_after(initial_state(self.spec_seed()), c as nat),
            ) % JITTER_RANGE
    }

    /// Whether `other` stands as this generator does.
    pub open spec fn same_state(self, other: Generator) -> bool {
        &&& self.same_setup(other)
        &&& self.events() == other.events()
        &&& self.engine().domains() == other.engine().domains()
        &&& self.engine().counters() == other.engine().counters()
        &&& self.state().pending() == other.state().pending()
        &&& forall|c: int|
            0 <= c < self.spec_grid().spec_total_size() ==> #[trigger] self.state().spec_jitter(c)
                == other.state().spec_jitter(c)
        &&& self.rng_state() == other.rng_state()
        &&& self.spec_retry_count() == other.spec_retry_count()
        &&& self.spec_status() == other.spec_status()
        &&& self.engine().attempt_start() == other.engine().attempt_start()
        &&& self.spec_generation_epoch() == other.spec_generation_epoch()
    }

    /// What a step does once `cell` and `variant` are chosen, the cell
    /// with a random number drawn from the state that leaves `rng_mid`.
    pub open spec fn collapse_result(
        before: Generator,
        after: Generator,
        result: Result<GenerationStatus, GeneratorError>,
        cell: int,
        variant: int,
        rng_mid: u64,
    ) -> bool {
        let rules = before.spec_rules();
        let grid = before.spec_grid();
        let start = collapsed(before.engine().domains(), cell, variant);
        if closure_alive(rules, grid, start) {
            &&& forall|c: int, v: int|
                0 <= c < grid.spec_total_size() && 0 <= v < rules.variants().len() ==> (
                #[trigger] after.possible(c, v) <==> in_closure(rules, grid, start, c, v))
            &&& after.spec_retry_count() == before.spec_retry_count()
            &&& after.rng_state() == next_state(rng_mid)
            &&& after.engine().attempt_start() == before.engine().attempt_start()
            &&& after.spec_generation_epoch() == before.spec_generation_epoch()
            &&& forall|c: int|
                0 <= c < grid.spec_total_size() ==> #[trigger] after.state().spec_jitter(c)
                    == before.state().spec_jitter(c)
            &&& if after.all_fixed() {
                &&& result == Ok::<GenerationStatus, GeneratorError>(GenerationStatus::Done)
                &&& after.spec_status() == InternalStatus::Done
            } else {
                &&& result == Ok::<GenerationStatus, GeneratorError>(GenerationStatus::Ongoing)
                &&& after.spec_status() == InternalStatus::Ongoing
            }
        } else if before.spec_retry_count() >= before.spec_max_retry_count() {
            &&& result is Err
            &&& result->Err_0.node_index < grid.spec_total_size()
            &&& forall|v: int|
                0 <= v < rules.variants().len() ==> !#[trigger] in_closure(
                    rules,
                    grid,
                    start,
                    result->Err_0.node_index as int,
                    v,
                )
            &&& after.spec_status() == InternalStatus::Failed(result->Err_0.node_index)
            &&& after.events().last() == GenerationUpdate::Failed(result->Err_0.node_index)
            &&& after.spec_retry_count() == before.spec_retry_count()
            &&& after.rng_state() == next_state(rng_mid)
        } else {
            &&& result == Ok::<GenerationStatus, GeneratorError>(GenerationStatus::Ongoing)
            &&& after.spec_status() == InternalStatus::Ongoing
            &&& after.spec_retry_count() == before.spec_retry_count() + 1
            &&& after.engine().domains() == full_domains(
                grid.spec_total_size() as nat,
                rules.variants().len(),
            )
            &&& after.rng_state() == state_after(
                next_state(rng_mid),
                grid.spec_total_size() as nat,
            )
            &&& forall|c: int|
                0 <= c < grid.spec_total_size() ==> #[trigger] after.state().spec_jitter(c)
                    == crate::generator::rng::output(
                    state_after(next_state(rng_mid), c as nat),
                ) % crate::generator::domain::JITTER_RANGE
            &&& after.engine().attempt_start() > 0
            &&& after.events()[after.engine().attempt_start() - 1]
                == GenerationUpdate::Reinitializing(after.spec_retry_count())
        }
    }

    /// A generator for the rules and the grid, which starts from `seed`.
    pub fn new(
        rules: Rules,
        grid: GridDefinition,
        node_selection_heuristic: NodeSelectionHeuristic,
        model_selection_heuristic: ModelSelectionHeuristic,
        max_retry_count: u32,
        seed: u64,
    ) -> (generator: Generator)
        requires
            rules.system() == grid.system(),
        ensures
            generator.wf(),
            generator.spec_rules() == rules,
            generator.spec_grid() == grid,
            generator.node_heuristic() == node_selection_heuristic,
            generator.model_heuristic() == model_selection_heuristic,
            generator.spec_max_retry_count() == max_retry_count,
            generator.spec_seed() == seed,
            generator.is_fresh(),
    {
        let mut rng = Rng::new(seed);
        let engine = Propagator::new(&rules, &grid, &mut rng);
        proof {
            crate::generator::consistency::lemma_settled(rules, grid, engine.wave(None));
            crate::generator::propagation::lemma_full_alive(
                engine,
                rules,
                grid.spec_total_size() as nat,
            );
            assert(engine.state().pending() =~= Seq::<(usize, usize)>::empty());
        }
        Generator {
            rules,
            grid,
            node_selection_heuristic,
            model_selection_heuristic,
            max_retry_count,
            seed,
            rng,
            engine,
            retry_count: 0,
            status: InternalStatus::Ongoing,
            generation_epoch: 0,
        }
    }

    /// Whether every cell has one variant.
    fn is_all_fixed(&self) -> (fixed: bool)
        requires
            self.engine.state().wf(self.rules),
        ensures
            fixed == self.all_fixed(),
    {
        let state = self.engine.state_ref();
        let cells = state.cells_count();
        let mut c: usize = 0;
        while c < cells
            invariant
                c <= cells,
                cells == state.cells(),
                *state == self.engine.state(),
                state.wf(self.rules),
                forall|x: int| 0 <= x < c ==> #[trigger] state.spec_count(x) == 1,
            decreases cells - c,
        {
            if state.count(&self.rules, c) != 1 {
                assert(self.state().spec_count(c as int) != 1);
                return false;
            }
            c += 1;
        }
        true
    }

    /// One observation: chooses a cell and a variant, collapses the cell
    /// to the variant, and propagates. On a contradiction the generator
    /// starts anew if it may, and else fails.
    pub fn step(&mut self) -> (result: Result<GenerationStatus, GeneratorError>)
        requires
            old(self).wf(),
        ensures
            final(self).wf(),
            final(self).same_setup(*old(self)),
            extends(final(self).events(), old(self).events()),
            Self::step_result(*old(self), *final(self), result),
            result == Ok::<GenerationStatus, GeneratorError>(GenerationStatus::Ongoing) ==> {
                ||| final(self).spec_retry_count() > old(self).spec_retry_count()
                ||| (final(self).spec_retry_count() == old(self).spec_retry_count() && final(
                    self
                ).unfixed_count() < old(self).unfixed_count())
            },
            result is Ok ==> !(final(self).spec_status() is Failed),
            result == Ok::<GenerationStatus, GeneratorError>(GenerationStatus::Done)
                <==> final(self).spec_status() == InternalStatus::Done,
            result matches Err(error) ==> final(self).spec_status() == InternalStatus::Failed(
                error.node_index,
            ),
    {
        proof {
            reveal(Generator::step_result);
            assert(self.events().take(self.events().len() as int) =~= self.events());
        }
        match self.status {
            InternalStatus::Done => {
                return Ok(GenerationStatus::Done);
            },
            InternalStatus::Failed(cell) => {
                return Err(GeneratorError { node_index: cell });
            },
            InternalStatus::Ongoing => {},
        }
        let ghost rules = self.rules;
        let ghost grid = self.grid;
        let ghost state0 = self.engine.state();
        let ghost cells = grid.spec_total_size();
        let ghost count = rules.variants().len();
        let chosen = select_cell(
            &self.rules,
            self.engine.state_ref(),
            self.node_selection_heuristic,
            &mut self.rng,
        );
        let cell = match chosen {
            Some(cell) => cell,
            None => {
                proof {
                    assert forall|c: int| 0 <= c < state0.cells() implies #[trigger] state0.spec_count(
                    c) == 1 by {
                        assert(state0.spec_count(c) <= 1);
                        assert(state0.spec_count(c) > 0);
                    }
                }
                self.status = InternalStatus::Done;
                return Ok(GenerationStatus::Done);
            },
        };
        let ghost rng_mid = self.rng.state();
        let variant = select_variant(
            &self.rules,
            self.engine.state_ref(),
            self.model_selection_heuristic,
            cell,
            &mut self.rng,
        );
        let ghost domains0 = self.engine.domains();
        self.engine.collapse(&self.rules, &self.grid, cell, variant);
        let ghost start = self.engine.domains();
        let ghost state1 = self.engine.state();
        let ghost events1 = self.engine.events();
        let ghost origin = Self::collapse_trail(*old(self), cell as int, variant as int);
        proof {
            assert(self.engine.trail(None, None) == origin);
        }
        proof {
            assert(start == collapsed(domains0, cell as int, variant as int));
            assert(events1.take(old(self).events().len() as int) =~= old(self).events());
            assert forall|c: int| 0 <= c < state1.cells() implies #[trigger] state1.spec_count(c)
                > 0 by {
                if c != cell {
                    assert(start[c] == domains0[c]);
                    assert(state1.domain(c) == state0.domain(c));
                    assert(state0.spec_count(c) > 0);
                }
            }
            assert(old(self).state().spec_count(cell as int) > 1);
            assert(!old(self).all_fixed());
            assert forall|c: int, v: int|
                0 <= c < start.len() && 0 <= v < start[c].len()
                    && #[trigger] start[c][v] implies domains0[c][v] by {
                assert(start[c].len() == count);
                assert(domains0[c].len() == count);
            }
        }
        let outcome = self.engine.propagate(&self.rules, &self.grid);
        let ghost dead = match outcome {
            Ok(()) => None::<int>,
            Err(failed) => Some(failed as int),
        };
        let ghost rounds = choose|rounds: nat|
            {
                let end = #[trigger] drain_trail(rules, grid, origin, rounds);
                &&& settled(end)
                &&& end.dead == dead
                &&& end.events == self.engine.events()
                &&& end.wave.domains == self.engine.domains()
                &&& end.wave.counters == self.engine.counters()
                &&& end.wave.pending == self.engine.state().pending()
            };
        proof {
            lemma_extends(self.engine.events(), events1, old(self).events());
            assert(picked_cell(
                old(self).spec_rules(),
                old(self).state(),
                old(self).node_heuristic(),
                old(self).rng_state(),
                cell as int,
                rng_mid,
            ));
            assert(picked_variant(
                old(self).spec_rules(),
                old(self).state(),
                old(self).model_heuristic(),
                cell as int,
                rng_mid,
                variant as int,
            ));
            assert(Self::mid_step(*old(self), *self, cell as int, variant as int, rng_mid, rounds));
        }
        let result = match outcome {
            Ok(()) => Ok(
                self.conclude(
                    Ghost(*old(self)),
                    Ghost(cell as int),
                    Ghost(variant as int),
                    Ghost(rng_mid),
                    Ghost(rounds),
                ),
            ),
            Err(failed) => self.recover(
                failed,
                Ghost(*old(self)),
                Ghost(cell as int),
                Ghost(variant as int),
                Ghost(rng_mid),
                Ghost(rounds),
            ),
        };
        proof {
            assert(Self::step_result(*old(self), *self, result));
        }
        result
    }

    /// What holds in the middle of a step, when `cell` was collapsed to
    /// `variant` and the propagation has come to its end after `rounds`
    /// rounds: the generator `now` as against the generator `before`.
    pub closed spec fn mid_step(
        before: Generator,
        now: Generator,
        cell: int,
        variant: int,
        rng_mid: u64,
        rounds: nat,
    ) -> bool {
        let rules = before.spec_rules();
        let grid = before.spec_grid();
        let start = collapsed(before.engine().domains(), cell, variant);
        let end = drain_trail(rules, grid, Self::collapse_trail(before, cell, variant), rounds);
        &&& before.wf()
        &&& before.spec_status() == InternalStatus::Ongoing
        &&& 0 <= cell < grid.spec_total_size()
        &&& 0 <= variant < rules.variants().len()
        &&& before.state().spec_count(cell) > 1
        &&& before.possible(cell, variant)
        &&& now.same_setup(before)
        &&& now.rules.wf()
        &&& now.rules.system() == now.grid.system()
        &&& now.grid.spec_total_size() <= usize::MAX
        &&& now.engine.state().wf(now.rules)
        &&& now.engine.state().cells() == now.grid.spec_total_size()
        &&& now.retry_count == before.retry_count
        &&& now.retry_count <= now.max_retry_count
        &&& now.status == InternalStatus::Ongoing
        &&& now.generation_epoch == before.generation_epoch
        &&& now.rng.state() == next_state(rng_mid)
        &&& now.engine.attempt_start() == before.engine.attempt_start()
        &&& forall|c: int|
            0 <= c < grid.spec_total_size() ==> #[trigger] now.state().spec_jitter(c)
                == before.state().spec_jitter(c)
        &&& extends(now.events(), before.events())
        &&& now.engine.faithful(rules)
        &&& keeps_closure(rules, grid, start, now.engine.domains())
        &&& within(now.engine.domains(), start)
        &&& within(start, before.engine().domains())
        &&& is_family(rules, grid, now.engine.domains())
        &&& settled(end)
        &&& end.events == now.engine.events()
        &&& end.wave.domains == now.engine.domains()
        &&& end.wave.counters == now.engine.counters()
        &&& end.wave.pending == now.engine.state().pending()
    }

    /// Ends a step whose propagation left every cell a variant.
    fn conclude(
        &mut self,
        Ghost(before): Ghost<Generator>,
        Ghost(cell): Ghost<int>,
        Ghost(variant): Ghost<int>,
        Ghost(rng_mid): Ghost<u64>,
        Ghost(rounds): Ghost<nat>,
    ) -> (status: GenerationStatus)
        requires
            Self::mid_step(before, *old(self), cell, variant, rng_mid, rounds),
            drain_trail(
                before.spec_rules(),
                before.spec_grid(),
                Self::collapse_trail(before, cell, variant),
                rounds,
            ).dead is None,
            old(self).engine.consistent(old(self).rules, old(self).grid, None, nowhere()),
            old(self).engine.state().pending().len() == 0,
            old(self).engine.alive(),
            arc_consistent(old(self).rules, old(self).grid, old(self).engine.domains()),
        ensures
            final(self).wf(),
            final(self).same_setup(before),
            extends(final(self).events(), before.events()),
            Self::collapse_result(before, *final(self), Ok(status), cell, variant, rng_mid),
            Self::trail_result(before, *final(self), Ok(status), cell, variant),
            final(self).spec_retry_count() == before.spec_retry_count(),
            final(self).unfixed_count() < before.unfixed_count(),
            status == GenerationStatus::Done <==> final(self).spec_status()
                == InternalStatus::Done,
            !(final(self).spec_status() is Failed),
    {
        let ghost rules = self.rules;
        let ghost grid = self.grid;
        let ghost cells = grid.spec_total_size();
        let ghost count = rules.variants().len();
        let ghost start = collapsed(before.engine().domains(), cell, variant);
        let ghost end = drain_trail(
            rules,
            grid,
            Self::collapse_trail(before, cell, variant),
            rounds,
        );
        let done = self.is_all_fixed();
        proof {
            let after = self.engine.domains();
            assert forall|c: int| 0 <= c < cells implies inhabited(#[trigger] after[c]) by {
                let domain = self.state().domain(c);
                assert(self.state().spec_count(c) > 0);
                assert(domain.len() == count);
                let keep = |i: int| domain[i];
                lemma_count_zero(count, keep);
                let v = choose|v: int| 0 <= v < count && #[trigger] keep(v);
                assert(after[c][v]);
            }
            lemma_closure_reached(rules, grid, start, after);
            assert forall|c: int, v: int| 0 <= c < cells && 0 <= v < count implies (
            #[trigger] self.possible(c, v) <==> in_closure(rules, grid, start, c, v)) by {
                assert(after[c][v] == self.possible(c, v));
            }
            assert forall|c: int, v: int|
                0 <= c < before.state().cells() && 0 <= v < count && #[trigger] self.state().possible(
                    c,
                    v,
                ) implies before.state().possible(c, v) && (c == cell ==> v == variant) by {
                assert(after[c][v]);
                assert(after[c].len() == count);
                assert(start[c][v]);
                assert(before.engine().domains()[c].len() == count);
            }
            Self::lemma_fewer_unfixed(before.state(), self.state(), rules, cell, variant);
        }
        if done {
            self.status = InternalStatus::Done;
        }
        let status = if done {
            GenerationStatus::Done
        } else {
            GenerationStatus::Ongoing
        };
        proof {
            assert(self.all_fixed() == done);
            assert(Self::end_result(before, *self, Ok(status), end));
            assert(Self::trail_result(before, *self, Ok(status), cell, variant));
            assert(Self::collapse_result(before, *self, Ok(status), cell, variant, rng_mid));
        }
        status
    }

    /// Ends a step whose propagation left the cell `failed` no variant:
    /// the generator fails if it has no new start left, and else starts anew.
    fn recover(
        &mut self,
        failed: usize,
        Ghost(before): Ghost<Generator>,
        Ghost(cell): Ghost<int>,
        Ghost(variant): Ghost<int>,
        Ghost(rng_mid): Ghost<u64>,
        Ghost(rounds): Ghost<nat>,
    ) -> (result: Result<GenerationStatus, GeneratorError>)
        requires
            Self::mid_step(before, *old(self), cell, variant, rng_mid, rounds),
            drain_trail(
                before.spec_rules(),
                before.spec_grid(),
                Self::collapse_trail(before, cell, variant),
                rounds,
            ).dead == Some(failed as int),
            failed < old(self).grid.spec_total_size(),
            old(self).engine.state().spec_count(failed as int) == 0,
        ensures
            final(self).wf(),
            final(self).same_setup(before),
            extends(final(self).events(), before.events()),
            Self::collapse_result(before, *final(self), result, cell, variant, rng_mid),
            Self::trail_result(before, *final(self), result, cell, variant),
            result != Ok::<GenerationStatus, GeneratorError>(GenerationStatus::Done),
            result is Ok ==> final(self).spec_retry_count() > before.spec_retry_count()
                && final(self).spec_status() == InternalStatus::Ongoing,
            result matches Err(error) ==> final(self).spec_status() == InternalStatus::Failed(
                error.node_index,
            ),
    {
        let ghost rules = self.rules;
        let ghost grid = self.grid;
        let ghost cells = grid.spec_total_size();
        let ghost count = rules.variants().len();
        let ghost start = collapsed(before.engine().domains(), cell, variant);
        let ghost end = drain_trail(
            rules,
            grid,
            Self::collapse_trail(before, cell, variant),
            rounds,
        );
        proof {
            let after = self.engine.domains();
            let domain = self.state().domain(failed as int);
            let keep = |i: int| domain[i];
            lemma_count_zero(count, keep);
            assert forall|v: int| 0 <= v < count implies !#[trigger] after[failed as int][v] by {
                assert(!keep(v));
            }
            lemma_closure_dead(rules, grid, start, after, failed as int);
        }
        if self.retry_count >= self.max_retry_count {
            let ghost events2 = self.engine.events();
            self.engine.mark(&self.rules, GenerationUpdate::Failed(failed));
            self.status = InternalStatus::Failed(failed);
            proof {
                assert(self.engine.events().take(events2.len() as int) =~= events2);
                lemma_extends(self.engine.events(), events2, before.events());
                assert(Self::end_result(
                    before,
                    *self,
                    Err(GeneratorError { node_index: failed }),
                    end,
                ));
                assert(Self::trail_result(
                    before,
                    *self,
                    Err(GeneratorError { node_index: failed }),
                    cell,
                    variant,
                ));
                assert(Self::collapse_result(
                    before,
                    *self,
                    Err(GeneratorError { node_index: failed }),
                    cell,
                    variant,
                    rng_mid,
                ));
            }
            Err(GeneratorError { node_index: failed })
        } else {
            self.retry_count = self.retry_count + 1;
            let ghost events2 = self.engine.events();
            self.engine.mark(&self.rules, GenerationUpdate::Reinitializing(self.retry_count));
            let ghost events3 = self.engine.events();
            self.engine.reinitialize(&self.rules, &self.grid, &mut self.rng);
            if self.generation_epoch < u64::MAX {
                self.generation_epoch = self.generation_epoch + 1;
            }
            proof {
                assert(events3.take(events2.len() as int) =~= events2);
                lemma_extends(events3, events2, before.events());
                lemma_extends(self.engine.events(), events3, before.events());
                crate::generator::consistency::lemma_settled(rules, grid, self.engine.wave(None));
                crate::generator::propagation::lemma_full_alive(self.engine, rules, cells as nat);
                assert(self.engine.events()[self.engine.attempt_start() - 1]
                    == events3[events3.len() - 1]);
                assert(self.engine.state().pending() =~= Seq::<(usize, usize)>::empty());
                assert(Self::end_result(before, *self, Ok(GenerationStatus::Ongoing), end));
                assert(Self::trail_result(
                    before,
                    *self,
                    Ok(GenerationStatus::Ongoing),
                    cell,
                    variant,
                ));
                assert(Self::collapse_result(
                    before,
                    *self,
                    Ok(GenerationStatus::Ongoing),
                    cell,
                    variant,
                    rng_mid,
                ));
            }
            Ok(GenerationStatus::Ongoing)
        }
    }

    /// Whether `trace` is a run of steps with the results `results`: each
    /// generator of the trace gives the next by one step, and every step
    /// but the last leaves the generation ongoing.
    #[verifier::opaque]
    pub open spec fn is_run(
        trace: Seq<Generator>,
        results: Seq<Result<GenerationStatus, GeneratorError>>,
    ) -> bool {
        &&& trace.len() == results.len() + 1
        &&& forall|i: int| 0 <= i < trace.len() ==> (#[trigger] trace[i]).wf()
        &&& forall|i: int|
            0 <= i < results.len() ==> Self::step_result(
                #[trigger] trace[i],
                trace[i + 1],
                results[i],
            ) && trace[i + 1].same_setup(trace[i])
        &&& forall|i: int|
            0 <= i < results.len() - 1 ==> #[trigger] results[i] == Ok::<
                GenerationStatus,
                GeneratorError,
            >(GenerationStatus::Ongoing)
    }

    /// The number of attempts that `retries` new starts make.
    pub open spec fn tries(retries: u32) -> u32 {
        if retries == u32::MAX {
            u32::MAX
        } else {
            (retries + 1) as u32
        }
    }

    /// What a whole generation does, from the generator before it to the
    /// generator after it and the result: a run of steps leads from the one
    /// to the other, and the result is that of the run's last step, with
    /// the number of attempts if the generation is done.
    pub open spec fn run_result(
        before: Generator,
        after: Generator,
        result: Result<GenInfo, GeneratorError>,
    ) -> bool {
        &&& match result {
            Ok(info) => after.spec_status() == InternalStatus::Done && info.try_count
                == Self::tries(after.spec_retry_count()),
            Err(error) => after.spec_status() == InternalStatus::Failed(error.node_index),
        }
        &&& exists|trace: Seq<Generator>, results: Seq<Result<GenerationStatus, GeneratorError>>|
            #![trigger Self::is_run(trace, results)]
            {
                &&& Self::is_run(trace, results)
                &&& results.len() > 0
                &&& trace[0] == before
                &&& trace.last() == after
                &&& match result {
                    Ok(info) => results.last() == Ok::<GenerationStatus, GeneratorError>(
                        GenerationStatus::Done,
                    ),
                    Err(error) => results.last() == Err::<GenerationStatus, GeneratorError>(error),
                }
            }
    }

    /// Runs steps until the generation is done or has failed: the result
    /// is that of the last step.
    pub fn generate(&mut self) -> (result: Result<GenInfo, GeneratorError>)
        requires
            old(self).wf(),
        ensures
            final(self).wf(),
            final(self).same_setup(*old(self)),
            extends(final(self).events(), old(self).events()),
            Self::run_result(*old(self), *final(self), result),
    {
        let ghost mut trace: Seq<Generator> = seq![*self];
        let ghost mut results: Seq<Result<GenerationStatus, GeneratorError>> = Seq::empty();
        proof {
            reveal(Generator::is_run);
            assert(self.events().take(self.events().len() as int) =~= self.events());
        }
        loop
            invariant
                self.wf(),
                self.same_setup(*old(self)),
                extends(self.events(), old(self).events()),
                Self::is_run(trace, results),
                trace[0] == *old(self),
                trace.last() == *self,
                forall|i: int|
                    0 <= i < results.len() ==> #[trigger] results[i] == Ok::<
                        GenerationStatus,
                        GeneratorError,
                    >(GenerationStatus::Ongoing),
            decreases
                    self.spec_max_retry_count() - self.spec_retry_count(),
                    self.unfixed_count(),
        {
            let ghost before = *self;
            let ghost events_before = self.events();
            proof {
                Self::lemma_retries_bounded(*self);
                assert(trace[trace.len() - 1] == before);
            }
            let outcome = self.step();
            proof {
                reveal(Generator::is_run);
                Self::lemma_retries_bounded(*self);
                lemma_extends(self.events(), events_before, old(self).events());
                let longer = trace.push(*self);
                let more = results.push(outcome);
                assert forall|i: int| 0 <= i < more.len() implies Self::step_result(
                    #[trigger] longer[i],
                    longer[i + 1],
                    more[i],
                ) && longer[i + 1].same_setup(longer[i]) by {
                    if i < results.len() {
                        assert(longer[i] == trace[i]);
                        assert(longer[i + 1] == trace[i + 1]);
                    }
                }
                assert forall|i: int| 0 <= i < longer.len() implies (#[trigger] longer[i]).wf() by {
                    if i < trace.len() {
                        assert(longer[i] == trace[i]);
                    }
                }
                trace = longer;
                results = more;
                assert(Self::is_run(trace, results));
            }
            match outcome {
                Ok(GenerationStatus::Done) => {
                    let try_count = if self.retry_count == u32::MAX {
                        u32::MAX
                    } else {
                        self.retry_count + 1
                    };
                    return Ok(GenInfo { try_count });
                },
                Ok(GenerationStatus::Ongoing) => {},
                Err(error) => {
                    return Err(error);
                },
            }
        }
    }

    /// The nodes that a step gave: those of the running attempt that the
    /// log holds behind its first `known` events.
    pub open spec fn collected(self, known: int) -> Seq<GridNode> {
        let from = if known >= self.engine().attempt_start() {
            known
        } else {
            self.engine().attempt_start()
        };
        crate::generator::observer::generated_nodes(
            crate::generator::observer::events_from(self.events(), from),
        )
    }

    /// One step, as `step` makes it; gives with the status the nodes that
    /// the step gave.
    pub fn select_and_propagate_collected(&mut self) -> (result: Result<
        (GenerationStatus, Vec<GridNode>),
        GeneratorError,
    >)
        requires
            old(self).wf(),
        ensures
            final(self).wf(),
            final(self).same_setup(*old(self)),
            extends(final(self).events(), old(self).events()),
            Self::step_result(*old(self), *final(self), status_of(result)),
            result matches Ok((status, nodes)) ==> nodes@ == final(self).collected(
                old(self).events().len() as int,
            ),
            result matches Ok((status, nodes)) ==> status == GenerationStatus::Ongoing ==> {
                ||| final(self).spec_retry_count() > old(self).spec_retry_count()
                ||| (final(self).spec_retry_count() == old(self).spec_retry_count() && final(
                    self
                ).unfixed_count() < old(self).unfixed_count())
            },
            result matches Ok((status, nodes)) ==> (status == GenerationStatus::Done
                <==> final(self).spec_status() == InternalStatus::Done),
            result matches Err(error) ==> final(self).spec_status() == InternalStatus::Failed(
                error.node_index,
            ),
    {
        let known = self.engine.events_ref().len();
        let status = match self.step() {
            Ok(status) => status,
            Err(error) => {
                return Err(error);
            },
        };
        let start = self.engine.attempt_begin();
        let from = if known >= start {
            known
        } else {
            start
        };
        let log = self.engine.events_ref();
        let mut nodes: Vec<GridNode> = Vec::new();
        let mut i: usize = from;
        proof {
            assert(log@.subrange(from as int, from as int) =~= Seq::<GenerationUpdate>::empty());
        }
        while i < log.len()
            invariant
                from <= i <= log.len(),
                nodes@ == crate::generator::observer::generated_nodes(
                    log@.subrange(from as int, i as int),
                ),
            decreases log.len() - i,
        {
            proof {
                let longer = log@.subrange(from as int, i + 1);
                assert(longer.drop_last() =~= log@.subrange(from as int, i as int));
                assert(longer.last() == log@[i as int]);
            }
            match log[i] {
                GenerationUpdate::Generated { node, variant_index } => {
                    nodes.push(node);
                },
                _ => {},
            }
            i += 1;
        }
        Ok((status, nodes))
    }

    /// The new starts of a generator are within their ceiling.
    proof fn lemma_retries_bounded(generator: Generator)
        requires
            generator.wf(),
        ensures
            generator.spec_retry_count() <= generator.spec_max_retry_count(),
    {
    }

    /// Starts the generation anew: every variant is possible again in
    /// every cell, a jitter is drawn for each cell, and the new starts are
    /// counted from zero. The log is kept, and tells of the new start.
    pub fn reset(&mut self)
        requires
            old(self).wf(),
        ensures
            final(self).wf(),
            final(self).same_setup(*old(self)),
            final(self).spec_status() == InternalStatus::Ongoing,
            final(self).spec_retry_count() == 0,
            final(self).engine().domains() == full_domains(
                final(self).spec_grid().spec_total_size() as nat,
                final(self).spec_rules().variants().len(),
            ),
            final(self).rng_state() == state_after(
                old(self).rng_state(),
                final(self).spec_grid().spec_total_size() as nat,
            ),
            final(self).events() == old(self).events().push(GenerationUpdate::Reinitializing(0))
                + first_events(
                final(self).spec_rules(),
                final(self).spec_grid().spec_total_size() as nat,
            ),
            final(self).engine().counters() == fresh_counters(
                final(self).spec_rules(),
                final(self).spec_grid().spec_total_size() as nat,
            ),
            final(self).state().pending() == Seq::<(usize, usize)>::empty(),
            final(self).spec_generation_epoch() == Self::next_epoch(
                old(self).spec_generation_epoch(),
            ),
            forall|c: int|
                0 <= c < old(self).spec_grid().spec_total_size() ==> #[trigger] final(
                    self
                ).state().spec_jitter(c) == output(state_after(old(self).rng_state(), c as nat))
                    % JITTER_RANGE,
            final(self).engine().attempt_start() == old(self).events().len() + 1,
    {
        self.retry_count = 0;
        self.engine.mark(&self.rules, GenerationUpdate::Reinitializing(0));
        self.engine.reinitialize(&self.rules, &self.grid, &mut self.rng);
        self.status = InternalStatus::Ongoing;
        if self.generation_epoch < u64::MAX {
            self.generation_epoch = self.generation_epoch + 1;
        }
        proof {
            crate::generator::consistency::lemma_settled(
                self.rules,
                self.grid,
                self.engine.wave(None),
            );
            crate::generator::propagation::lemma_full_alive(
                self.engine,
                self.rules,
                self.grid.spec_total_size() as nat,
            );
        }
    }

    /// The seed that the generator was built with.
    pub fn seed(&self) -> (seed: u64)
        ensures
            seed == self.spec_seed(),
    {
        self.seed
    }

    /// The grid that is filled.
    pub fn grid(&self) -> (grid: &GridDefinition)
        ensures
            *grid == self.spec_grid(),
    {
        &self.grid
    }

    /// The rules of the generation.
    pub fn rules(&self) -> (rules: &Rules)
        ensures
            *rules == self.spec_rules(),
    {
        &self.rules
    }

    /// Number of new starts so far.
    pub fn retry_count(&self) -> (count: u32)
        ensures
            count == self.spec_retry_count(),
    {
        self.retry_count
    }

    /// The most new starts that a generation may take.
    pub fn max_retry_count(&self) -> (count: u32)
        ensures
            count == self.spec_max_retry_count(),
    {
        self.max_retry_count
    }

    /// Number of times the domains were made anew since the generator was
    /// built; it stays at the largest number once it has come to it.
    pub fn generation_epoch(&self) -> (epoch: u64)
        ensures
            epoch == self.spec_generation_epoch(),
    {
        self.generation_epoch
    }

    /// How far the generation is, or the error that it failed with.
    pub fn status(&self) -> (status: Result<GenerationStatus, GeneratorError>)
        ensures
            status == match self.spec_status() {
                InternalStatus::Ongoing => Ok::<GenerationStatus, GeneratorError>(
                    GenerationStatus::Ongoing,
                ),
                InternalStatus::Done => Ok(GenerationStatus::Done),
                InternalStatus::Failed(cell) => Err(GeneratorError { node_index: cell }),
            },
    {
        match self.status {
            InternalStatus::Ongoing => Ok(GenerationStatus::Ongoing),
            InternalStatus::Done => Ok(GenerationStatus::Done),
            InternalStatus::Failed(cell) => Err(GeneratorError { node_index: cell }),
        }
    }

    /// A reader of the log that will hand out the events that come from
    /// now on.
    pub fn subscribe(&self) -> (observer: crate::generator::observer::QueuedObserver)
        ensures
            observer.position() == self.events().len(),
    {
        crate::generator::observer::QueuedObserver::new(self)
    }

    /// Every event since the generator was built, oldest first.
    pub fn event_log(&self) -> (log: &Vec<GenerationUpdate>)
        ensures
            log@ == self.events(),
    {
        self.engine.events_ref()
    }

    /// Number of variants that are still possible in the cell `node_index`.
    pub fn possible_count(&self, node_index: usize) -> (count: usize)
        requires
            self.wf(),
            node_index < self.spec_grid().spec_total_size(),
        ensures
            count == self.state().spec_count(node_index as int),
    {
        self.engine.state_ref().count(&self.rules, node_index)
    }

    /// Whether `variant` is still possible in the cell `node_index`.
    pub fn is_possible(&self, node_index: usize, variant: usize) -> (possible: bool)
        requires
            self.wf(),
            node_index < self.spec_grid().spec_total_size(),
            variant < self.spec_rules().variants().len(),
        ensures
            possible == self.possible(node_index as int, variant as int),
    {
        self.engine.state_ref().is_possible(&self.rules, node_index, variant)
    }

    /// What the cell `node_index` holds: its variant with the model that
    /// the variant stands for, if the cell has come down to one variant.
    pub fn node(&self, node_index: usize) -> (found: Option<(usize, GridNode)>)
        requires
            self.wf(),
            node_index < self.spec_grid().spec_total_size(),
        ensures
            match found {
                Some((variant, node)) => {
                    &&& self.state().spec_count(node_index as int) == 1
                    &&& variant < self.spec_rules().variants().len()
                    &&& self.possible(node_index as int, variant as int)
                    &&& crate::generator::trail::generated_for(
                        self.spec_rules(),
                        node_index as int,
                        variant as int,
                    ) == (GenerationUpdate::Generated { node, variant_index: variant })
                },
                None => self.state().spec_count(node_index as int) != 1,
            },
    {
        let state = self.engine.state_ref();
        if state.count(&self.rules, node_index) != 1 {
            return None;
        }
        match state.next_possible(&self.rules, node_index, 0) {
            Some(variant) => {
                let instance = self.rules.model(variant).to_instance();
                Some((variant, GridNode { node_index, model_instance: instance }))
            },
            None => {
                proof {
                    let domain = self.state().domain(node_index as int);
                    let keep = |i: int| domain[i];
                    lemma_count_zero(self.spec_rules().variants().len(), keep);
                    assert forall|i: int|
                        0 <= i < self.spec_rules().variants().len() implies !#[trigger] keep(
                        i,
                    ) by {
                        assert(!self.state().possible(node_index as int, i));
                    }
                }
                None
            },
        }
    }

    /// After a collapse and a propagation, fewer cells are left to fix.
    proof fn lemma_fewer_unfixed(
        before: DomainState,
        after: DomainState,
        rules: Rules,
        cell: int,
        variant: int,
    )
        requires
            before.wf(rules),
            after.wf(rules),
            before.cells() == after.cells(),
            0 <= cell < before.cells(),
            before.spec_count(cell) > 1,
            forall|c: int, v: int|
                0 <= c < before.cells() && 0 <= v < rules.variants().len() && #[trigger] after.possible(
                    c,
                    v,
                ) ==> before.possible(c, v) && (c == cell ==> v == variant),
        ensures
            count_where(after.cells(), unfixed(after)) < count_where(
                before.cells(),
                unfixed(before),
            ),
    {
        let count = rules.variants().len();
        assert forall|c: int| 0 <= c < before.cells() implies #[trigger] after.spec_count(c)
            <= before.spec_count(c) by {
            let b = before.domain(c);
            let a = after.domain(c);
            assert(b.len() == count && a.len() == count);
            let keep_a = |i: int| a[i];
            let keep_b = |i: int| b[i];
            assert forall|v: int| 0 <= v < count && #[trigger] keep_a(v) implies keep_b(v) by {
                assert(after.possible(c, v));
            }
            lemma_sum_monotone(count, keep_a, keep_b, |i: int| 1nat);
        }
        assert forall|c: int| 0 <= c < before.cells() && #[trigger] unfixed(after)(c) implies unfixed(
            before,
        )(c) by {
            assert(after.spec_count(c) <= before.spec_count(c));
        }
        assert(!unfixed(after)(cell)) by {
            let a = after.domain(cell);
            assert(a.len() == count);
            let keep_a = |i: int| a[i];
            let single = |i: int| i == variant;
            assert forall|v: int| 0 <= v < count && #[trigger] keep_a(v) implies single(v) by {
                assert(after.possible(cell, v));
            }
            lemma_sum_monotone(count, keep_a, single, |i: int| 1nat);
            let none = |i: int| false;
            if 0 <= variant < count {
                crate::generator::count::lemma_sum_remove(
                    count,
                    single,
                    none,
                    |i: int| 1nat,
                    variant,
                );
                lemma_count_zero(count, none);
            } else {
                lemma_count_zero(count, single);
            }
        }
        lemma_sum_strict(before.cells(), unfixed(after), unfixed(before), |i: int| 1nat, cell);
    }
}

} // verus!

verus! {

/// Local consistency: once the generation is done, two neighbouring cells
/// hold variants that the rules let stand side by side. A variant that
/// accepts nothing on a side is not held to this on that side.
pub proof fn lemma_done_is_consistent(
    generator: Generator,
    cell: int,
    direction: Direction,
    variant: int,
    beside: int,
)
    requires
        generator.wf(),
        generator.spec_status() == InternalStatus::Done,
        0 <= cell < generator.spec_grid().spec_total_size(),
        generator.spec_rules().system().has(direction),
        generator.spec_grid().neighbor(cell, direction) is Some,
        0 <= variant < generator.spec_rules().variants().len(),
        0 <= beside < generator.spec_rules().variants().len(),
        generator.possible(cell, variant),
        generator.possible(generator.spec_grid().neighbor(cell, direction)->0, beside),
        generator.spec_rules().support(variant, direction).len() > 0,
    ensures
        generator.spec_rules().support(variant, direction).contains(beside as usize),
{
    let rules = generator.spec_rules();
    let grid = generator.spec_grid();
    let next = grid.neighbor(cell, direction)->0;
    let domains = generator.engine().domains();
    crate::grid::lemma_neighbor_mutual(grid, cell, direction);
    assert(domains[cell][variant]);
    assert(crate::generator::consistency::backed(rules, domains[next], variant, direction));
    let u = choose|u: int|
        0 <= u < domains[next].len() && #[trigger] domains[next][u] && rules.support(
            variant,
            direction,
        ).contains(u as usize);
    let domain = generator.state().domain(next);
    assert(generator.state().spec_count(next) == 1);
    assert(domain.len() == rules.variants().len());
    crate::generator::count::lemma_count_one(
        rules.variants().len(),
        |i: int| domain[i],
        u,
        beside,
    );
}

/// Observer faithfulness: when the generation is done, the log of the
/// running attempt tells of every cell once and of nothing else; it has as
/// many events as the grid has cells, and each tells of the variant that
/// its cell holds.
pub proof fn lemma_done_tells_each_cell_once(generator: Generator)
    requires
        generator.wf(),
        generator.spec_status() == InternalStatus::Done,
    ensures
        generator.engine().faithful(generator.spec_rules()),
        generator.engine().attempt_events().len() == generator.spec_grid().spec_total_size(),
        forall|i: int|
            0 <= i < generator.engine().attempt_events().len() ==> {
                let event = #[trigger] generator.engine().attempt_events()[i];
                &&& event is Generated
                &&& generator.possible(
                    crate::generator::propagation::event_cell(event),
                    event->variant_index as int,
                )
            },
{
    let tail = generator.engine().attempt_events();
    let cells = generator.spec_grid().spec_total_size();
    let told = Seq::new(
        tail.len(),
        |i: int| crate::generator::propagation::event_cell(tail[i]) as usize,
    );
    assert forall|i: int, j: int|
        0 <= i < told.len() && 0 <= j < told.len() && i != j implies told[i] != told[j] by {
        assert(crate::generator::propagation::event_cell(tail[i])
            != crate::generator::propagation::event_cell(tail[j]));
    }
    assert forall|i: int| 0 <= i < told.len() implies (#[trigger] told[i]) < cells by {
        assert(0 <= crate::generator::propagation::event_cell(tail[i]) < cells);
    }
    crate::generator::count::lemma_list_count(told, cells as nat);
    let held = |u: int| told.contains(u as usize);
    assert forall|c: int| 0 <= c < cells implies #[trigger] held(c) by {
        assert(generator.state().spec_count(c) == 1);
        let i = choose|i: int|
            0 <= i < tail.len() && crate::generator::propagation::event_cell(#[trigger] tail[i])
                == c;
        assert(told[i] == c as usize);
    }
    crate::generator::count::lemma_count_all(cells as nat, held);
    assert forall|i: int| 0 <= i < tail.len() implies {
        let event = #[trigger] tail[i];
        &&& event is Generated
        &&& generator.possible(
            crate::generator::propagation::event_cell(event),
            event->variant_index as int,
        )
    } by {
        assert(generator.state().spec_count(crate::generator::propagation::event_cell(tail[i]))
            == 1);
    }
}

/// What a run is made of: each of its generators keeps the invariant and
/// gives the next by one step, with the same rules, grid, heuristics,
/// ceiling and seed; and every step but the last leaves the generation
/// ongoing.
pub proof fn lemma_run_step(
    trace: Seq<Generator>,
    results: Seq<Result<GenerationStatus, GeneratorError>>,
    i: int,
)
    requires
        Generator::is_run(trace, results),
        0 <= i < results.len(),
    ensures
        trace.len() == results.len() + 1,
        trace[i].wf(),
        trace[i + 1].wf(),
        trace[i + 1].same_setup(trace[i]),
        Generator::step_result(trace[i], trace[i + 1], results[i]),
        i < results.len() - 1 ==> results[i] == Ok::<GenerationStatus, GeneratorError>(
            GenerationStatus::Ongoing,
        ),
{
    reveal(Generator::is_run);
}

/// The generator's invariant, as far as it shows: unless the generation
/// has failed, every cell has a variant left, the domains are arc
/// consistent, and the log is faithful to the domains; when it is done,
/// every cell has one variant.
pub proof fn lemma_invariant(generator: Generator)
    requires
        generator.wf(),
    ensures
        generator.spec_rules().wf(),
        generator.state().wf(generator.spec_rules()),
        generator.state().cells() == generator.spec_grid().spec_total_size(),
        generator.spec_grid().spec_total_size() <= usize::MAX,
        generator.spec_rules().system() == generator.spec_grid().system(),
        generator.spec_retry_count() <= generator.spec_max_retry_count(),
        !(generator.spec_status() is Failed) ==> {
            &&& generator.engine().alive()
            &&& generator.engine().faithful(generator.spec_rules())
            &&& arc_consistent(
                generator.spec_rules(),
                generator.spec_grid(),
                generator.engine().domains(),
            )
            &&& generator.state().pending().len() == 0
        },
        generator.spec_status() is Done ==> generator.all_fixed(),
        generator.spec_status() matches InternalStatus::Failed(cell) ==> cell
            < generator.spec_grid().spec_total_size(),
{
}

} // verus!
