use crate::generator::consistency::after_decrement;
use crate::generator::consistency::after_landing;
use crate::generator::consistency::after_pop;
use crate::generator::consistency::after_removal;
use crate::generator::consistency::arc_consistent;
use crate::generator::consistency::backers;
use crate::generator::consistency::backs;
use crate::generator::consistency::counter;
use crate::generator::consistency::counters_exact;
use crate::generator::consistency::counters_positive;
use crate::generator::consistency::is_family;
use crate::generator::consistency::keeps_closure;
use crate::generator::consistency::lemma_decrement;
use crate::generator::consistency::lemma_landing;
use crate::generator::consistency::lemma_next_direction;
use crate::generator::consistency::lemma_pop;
use crate::generator::consistency::lemma_positive_same;
use crate::generator::consistency::lemma_removal;
use crate::generator::consistency::lemma_settled;
use crate::generator::consistency::lemma_unbacked_leaves;
use crate::generator::consistency::nowhere;
use crate::generator::consistency::shaped;
use crate::generator::consistency::with_progress;
use crate::generator::consistency::within;
use crate::generator::consistency::Flight;
use crate::generator::consistency::Wave;
use crate::generator::count::count_true;
use crate::generator::count::count_where;
use crate::generator::count::lemma_count_all;
use crate::generator::count::lemma_count_one;
use crate::generator::count::lemma_count_zero;
use crate::generator::count::lemma_list_count;
use crate::generator::count::lemma_sum_lighter;
use crate::generator::count::lemma_sum_remove;
use crate::generator::count::lemma_sum_same;
use crate::generator::count::sum_where;
use crate::generator::domain::full_domain;
use crate::generator::domain::lemma_variant_leaves;
use crate::generator::domain::removed_entries;
use crate::generator::domain::DomainState;
use crate::generator::domain::JITTER_RANGE;
use crate::generator::node::GridNode;
use crate::generator::node::ModelInstance;
use crate::generator::observer::GenerationUpdate;
use crate::generator::rng::output;
use crate::generator::rng::state_after;
use crate::generator::rng::Rng;
use crate::generator::rules::Rules;
use crate::generator::trail::at_direction;
use crate::generator::trail::ban_trail;
use crate::generator::trail::directions_trail;
use crate::generator::trail::drain_trail;
use crate::generator::trail::entry_trail;
use crate::generator::trail::generated_for;
use crate::generator::trail::lemma_drain_round;
use crate::generator::trail::list_trail;
use crate::generator::trail::member;
use crate::generator::trail::round_trail;
use crate::generator::trail::settled;
use crate::generator::trail::Trail;
use crate::grid::direction::lemma_opposite_involution;
use crate::grid::direction::Direction;
use crate::grid::GridDefinition;
use vstd::prelude::*;

verus! {

/// The cell that an event tells of, where it tells that a cell came down to
/// one variant; no cell for another event.
pub open spec fn event_cell(event: GenerationUpdate) -> int {
    match event {
        GenerationUpdate::Generated { node, variant_index } => node.node_index as int,
        _ => -1,
    }
}

/// Whether `longer` begins with `shorter`.
pub open spec fn extends(longer: Seq<GenerationUpdate>, shorter: Seq<GenerationUpdate>) -> bool {
    shorter.len() <= longer.len() && longer.take(shorter.len() as int) == shorter
}

/// The domains in which every variant is possible in every cell.
pub open spec fn full_domains(cells: nat, variants: nat) -> Seq<Seq<bool>> {
    Seq::new(cells, |c: int| full_domain(variants))
}

/// The trail after the flight of the oldest removal that waits, before
/// the flight lands.
pub open spec fn round_trail_flown(rules: Rules, grid: GridDefinition, t: Trail) -> Trail {
    directions_trail(rules, grid, Trail { wave: after_pop(t.wave), events: t.events, dead: t.dead })
}

/// The support counters of full domains: each counter holds the length of
/// the list of its variant on its side.
pub open spec fn fresh_counters(rules: Rules, cells: nat) -> Seq<Seq<Seq<usize>>> {
    Seq::new(
        cells,
        |c: int|
            Seq::new(
                rules.variants().len(),
                |v: int|
                    Seq::new(
                        rules.faces() as nat,
                        |d: int|
                            rules.support(
                                v,
                                Direction::spec_from_index(d).spec_opposite(),
                            ).len() as usize,
                    ),
            ),
    )
}

/// The events with which an attempt begins: where the rules have one
/// variant, every cell has come down to it, and the log tells of each cell
/// in turn.
pub open spec fn first_events(rules: Rules, cells: nat) -> Seq<GenerationUpdate> {
    if rules.variants().len() == 1 {
        Seq::new(cells, |i: int| generated_for(rules, i, 0))
    } else {
        Seq::empty()
    }
}

/// `domains` with the domain of `cell` brought down to `variant`, if the
/// variant was in it.
pub open spec fn collapsed(domains: Seq<Seq<bool>>, cell: int, variant: int) -> Seq<Seq<bool>> {
    domains.update(
        cell,
        Seq::new(domains[cell].len(), |u: int| u == variant && domains[cell][u]),
    )
}

/// The propagation engine with what it works on: the domains, the support
/// counters, and the log of events.
pub struct Propagator {
    state: DomainState,
    /// `supports_count[cell][variant][direction]` is the number of variants
    /// in the domain of the cell's neighbour on the side opposite to
    /// `direction` that `variant` accepts there.
    supports_count: Vec<Vec<Vec<usize>>>,
    /// Every event since the generator was built, oldest first.
    events: Vec<GenerationUpdate>,
    /// Where in the log the events of the running attempt begin.
    attempt_start: usize,
}

impl Propagator {
    /// The domains and the worklist.
    pub closed spec fn state(self) -> DomainState {
        self.state
    }

    /// Every event since the generator was built, oldest first.
    pub closed spec fn events(self) -> Seq<GenerationUpdate> {
        self.events@
    }

    /// Where in the log the events of the running attempt begin.
    pub closed spec fn attempt_start(self) -> int {
        self.attempt_start as int
    }

    /// The domain of each cell.
    pub open spec fn domains(self) -> Seq<Seq<bool>> {
        Seq::new(self.state().cells(), |c: int| self.state().domain(c))
    }

    /// The support counters, by cell, variant and direction.
    pub closed spec fn counters(self) -> Seq<Seq<Seq<usize>>> {
        Seq::new(
            self.supports_count@.len(),
            |c: int|
                Seq::new(
                    self.supports_count@[c]@.len(),
                    |v: int| self.supports_count@[c]@[v]@,
                ),
        )
    }

    /// What the engine holds, with `flight` as the removal in flight.
    pub open spec fn wave(self, flight: Option<Flight>) -> Wave {
        Wave {
            domains: self.domains(),
            pending: self.state().pending(),
            counters: self.counters(),
            flight,
        }
    }

    /// What the engine has come to, with `flight` as the removal in flight
    /// and `dead` as the cell that has no variant left.
    pub open spec fn trail(self, flight: Option<Flight>, dead: Option<int>) -> Trail {
        Trail { wave: self.wave(flight), events: self.events(), dead }
    }

    /// Whether the engine stands where the propagation from `start` comes
    /// to its end, with `dead` as the cell that has no variant left.
    pub open spec fn propagated(
        self,
        rules: Rules,
        grid: GridDefinition,
        start: Trail,
        dead: Option<int>,
    ) -> bool {
        exists|rounds: nat|
            {
                let end = #[trigger] drain_trail(rules, grid, start, rounds);
                &&& settled(end)
                &&& end.dead == dead
                &&& end.events == self.events()
                &&& end.wave.domains == self.domains()
                &&& end.wave.counters == self.counters()
                &&& end.wave.pending == self.state().pending()
            }
    }

    /// The events of the running attempt.
    pub open spec fn attempt_events(self) -> Seq<GenerationUpdate> {
        self.events().subrange(self.attempt_start(), self.events().len() as int)
    }

    /// Whether the engine's parts fit the rules and the grid and each
    /// other, and the counters are true and positive, but perhaps for the
    /// variant `but.1` of the cell `but.0`.
    pub open spec fn consistent(
        self,
        rules: Rules,
        grid: GridDefinition,
        flight: Option<Flight>,
        but: (int, int),
    ) -> bool {
        &&& rules.wf()
        &&& rules.system() == grid.system()
        &&& self.state().wf(rules)
        &&& self.state().cells() == grid.spec_total_size()
        &&& shaped(rules, grid, self.wave(flight))
        &&& counters_exact(rules, grid, self.wave(flight))
        &&& counters_positive(rules, grid, self.wave(flight), but)
    }

    /// Whether the log is faithful to the domains: the events of the
    /// running attempt tell of the cells that came down to one variant,
    /// each once and with the variant that is left in it, and of no other.
    pub open spec fn faithful(self, rules: Rules) -> bool {
        let tail = self.attempt_events();
        &&& 0 <= self.attempt_start() <= self.events().len()
        &&& forall|i: int|
            0 <= i < tail.len() ==> {
                let cell = event_cell(#[trigger] tail[i]);
                &&& tail[i] is Generated
                &&& 0 <= cell < self.state().cells()
                &&& tail[i]->variant_index < rules.variants().len()
                &&& tail[i] == generated_for(rules, cell, tail[i]->variant_index as int)
                &&& self.state().spec_count(cell) <= 1
                &&& self.state().spec_count(cell) == 1 ==> self.state().possible(
                    cell,
                    tail[i]->variant_index as int,
                )
            }
        &&& forall|i: int, j: int|
            0 <= i < tail.len() && 0 <= j < tail.len() && i != j ==> event_cell(
                #[trigger] tail[i],
            ) != event_cell(#[trigger] tail[j])
        &&& forall|c: int|
            0 <= c < self.state().cells() && #[trigger] self.state().spec_count(c) <= 1
                ==> exists|i: int| 0 <= i < tail.len() && event_cell(#[trigger] tail[i]) == c
    }

    /// Whether every cell has a variant left.
    pub open spec fn alive(self) -> bool {
        forall|c: int| 0 <= c < self.state().cells() ==> #[trigger] self.state().spec_count(c) > 0
    }

    /// The domains and the worklist.
    pub fn state_ref(&self) -> (state: &DomainState)
        ensures
            *state == self.state(),
    {
        &self.state
    }

    /// Every event since the generator was built, oldest first.
    pub fn events_ref(&self) -> (events: &Vec<GenerationUpdate>)
        ensures
            events@ == self.events(),
    {
        &self.events
    }

    /// Where in the log the events of the running attempt begin.
    pub fn attempt_begin(&self) -> (start: usize)
        ensures
            start == self.attempt_start(),
    {
        self.attempt_start
    }

    /// Puts `event` at the end of the log, and lets the running attempt
    /// begin behind it.
    pub fn mark(&mut self, rules: &Rules, event: GenerationUpdate)
        requires
            !(event is Generated),
        ensures
            final(self).state() == old(self).state(),
            final(self).counters() == old(self).counters(),
            final(self).domains() == old(self).domains(),
            final(self).events() == old(self).events().push(event),
            final(self).attempt_start() == final(self).events().len(),
    {
        self.events.push(event);
        self.attempt_start = self.events.len();
    }

    /// What the propagation has left to do at most: a step for each removal
    /// that waits, and two for each variant that is still in a domain.
    pub open spec fn measure(self) -> nat {
        2 * bits(self.domains()) + self.state().pending().len()
    }

    /// An engine for the rules and the grid in which every variant is
    /// possible in every cell; no event yet but those of the cells that
    /// have one variant from the start.
    pub fn new(rules: &Rules, grid: &GridDefinition, rng: &mut Rng) -> (engine: Propagator)
        requires
            rules.system() == grid.system(),
        ensures
            engine.consistent(*rules, *grid, None, nowhere()),
            engine.faithful(*rules),
            engine.attempt_start() == 0,
            engine.events() == first_events(*rules, grid.spec_total_size() as nat),
            engine.counters() == fresh_counters(*rules, grid.spec_total_size() as nat),
            engine.state().pending().len() == 0,
            engine.domains() == full_domains(
                grid.spec_total_size() as nat,
                rules.variants().len(),
            ),
            forall|c: int|
                0 <= c < grid.spec_total_size() ==> #[trigger] engine.state().spec_jitter(c)
                    == output(state_after(old(rng).state(), c as nat)) % JITTER_RANGE,
            final(rng).state() == state_after(old(rng).state(), grid.spec_total_size() as nat),
    {
        let mut engine = Propagator {
            state: DomainState::initialize(rules, 0, rng),
            supports_count: Vec::new(),
            events: Vec::new(),
            attempt_start: 0,
        };
        engine.reinitialize(rules, grid, rng);
        engine
    }

    /// Starts a new attempt: every variant is possible in every cell again,
    /// the counters are those of full domains, nothing waits, and the jitter
    /// of each cell is drawn anew. The log is kept; the new attempt begins
    /// at its end, with the events of the cells that have one variant from
    /// the start.
    pub fn reinitialize(&mut self, rules: &Rules, grid: &GridDefinition, rng: &mut Rng)
        requires
            rules.system() == grid.system(),
        ensures
            final(self).consistent(*rules, *grid, None, nowhere()),
            final(self).faithful(*rules),
            final(self).attempt_start() == old(self).events().len(),
            final(self).events() == old(self).events() + first_events(
                *rules,
                grid.spec_total_size() as nat,
            ),
            final(self).counters() == fresh_counters(*rules, grid.spec_total_size() as nat),
            extends(final(self).events(), old(self).events()),
            final(self).state().pending().len() == 0,
            final(self).domains() == full_domains(
                grid.spec_total_size() as nat,
                rules.variants().len(),
            ),
            forall|c: int|
                0 <= c < grid.spec_total_size() ==> #[trigger] final(self).state().spec_jitter(c)
                    == output(state_after(old(rng).state(), c as nat)) % JITTER_RANGE,
            final(rng).state() == state_after(old(rng).state(), grid.spec_total_size() as nat),
    {
        let cells = grid.total_size();
        let variants_count = rules.models_count();
        let faces = rules.directions_count();
        let ghost count = rules.variants().len();
        self.state = DomainState::initialize(rules, cells, rng);
        let mut per_variant: Vec<Vec<usize>> = Vec::new();
        let mut v: usize = 0;
        while v < variants_count
            invariant
                v <= variants_count,
                variants_count == count,
                count == rules.variants().len(),
                faces == rules.faces(),
                rules.wf(),
                per_variant@.len() == v,
                forall|u: int, d: int|
                    0 <= u < v && 0 <= d < faces ==> (#[trigger] per_variant@[u]@).len() == faces
                        && #[trigger] per_variant@[u]@[d] == rules.support(
                        u,
                        Direction::spec_from_index(d).spec_opposite(),
                    ).len(),
                forall|u: int| 0 <= u < v ==> (#[trigger] per_variant@[u]@).len() == faces,
            decreases variants_count - v,
        {
            let mut per_direction: Vec<usize> = Vec::new();
            let mut d: usize = 0;
            while d < faces
                invariant
                    d <= faces,
                    v < variants_count,
                    variants_count == rules.variants().len(),
                    faces == rules.faces(),
                    rules.wf(),
                    per_direction@.len() == d,
                    forall|e: int|
                        0 <= e < d ==> #[trigger] per_direction@[e] == rules.support(
                            v as int,
                            Direction::spec_from_index(e).spec_opposite(),
                        ).len(),
                decreases faces - d,
            {
                let direction = Direction::from_index(d);
                proof {
                    lemma_opposite_involution(direction);
                }
                let list = rules.supported_models(v, direction.opposite());
                per_direction.push(list.len());
                d += 1;
            }
            per_variant.push(per_direction);
            v += 1;
        }
        let mut counters: Vec<Vec<Vec<usize>>> = Vec::new();
        let mut c: usize = 0;
        while c < cells
            invariant
                c <= cells,
                variants_count == count,
                count == rules.variants().len(),
                faces == rules.faces(),
                per_variant@.len() == count,
                forall|u: int| 0 <= u < count ==> (#[trigger] per_variant@[u]@).len() == faces,
                forall|u: int, d: int|
                    0 <= u < count && 0 <= d < faces ==> #[trigger] per_variant@[u]@[d]
                        == rules.support(u, Direction::spec_from_index(d).spec_opposite()).len(),
                counters@.len() == c,
                forall|k: int| 0 <= k < c ==> (#[trigger] counters@[k]@).len() == count,
                forall|k: int, u: int|
                    0 <= k < c && 0 <= u < count ==> (#[trigger] counters@[k]@[u]@).len() == faces,
                forall|k: int, u: int, d: int|
                    0 <= k < c && 0 <= u < count && 0 <= d < faces
                        ==> #[trigger] counters@[k]@[u]@[d] == rules.support(
                        u,
                        Direction::spec_from_index(d).spec_opposite(),
                    ).len(),
            decreases cells - c,
        {
            let mut per_cell: Vec<Vec<usize>> = Vec::new();
            let mut u: usize = 0;
            while u < variants_count
                invariant
                    u <= variants_count,
                    variants_count == count,
                    faces == rules.faces(),
                    per_variant@.len() == count,
                    forall|x: int| 0 <= x < count ==> (#[trigger] per_variant@[x]@).len() == faces,
                    per_cell@.len() == u,
                    forall|x: int| 0 <= x < u ==> #[trigger] per_cell@[x]@ == per_variant@[x]@,
                decreases variants_count - u,
            {
                let mut row: Vec<usize> = Vec::new();
                let mut d: usize = 0;
                while d < faces
                    invariant
                        d <= faces,
                        u < variants_count,
                        variants_count == count,
                        per_variant@.len() == count,
                        per_variant@[u as int]@.len() == faces,
                        row@ == per_variant@[u as int]@.take(d as int),
                    decreases faces - d,
                {
                    row.push(per_variant[u][d]);
                    assert(row@ =~= per_variant@[u as int]@.take(d + 1));
                    d += 1;
                }
                assert(row@ =~= per_variant@[u as int]@);
                per_cell.push(row);
                u += 1;
            }
            counters.push(per_cell);
            c += 1;
        }
        self.supports_count = counters;
        self.attempt_start = self.events.len();
        proof {
            let w = self.wave(None);
            assert(self.domains() =~= full_domains(cells as nat, count));
            assert(w.pending.len() == 0);
            assert forall|k: int| 0 <= k < w.counters.len() implies (#[trigger] w.counters[k]).len()
                == count by {
                assert(self.supports_count@[k]@.len() == count);
            }
            assert forall|k: int, u: int|
                0 <= k < w.counters.len() && 0 <= u < count implies (
            #[trigger] w.counters[k][u]).len() == faces by {
                assert(self.supports_count@[k]@[u]@.len() == faces);
            }
            lemma_fresh_counters(*rules, *grid, w);
            lemma_count_all(count, |i: int| full_domain(count)[i]);
            assert(self.counters() =~~= fresh_counters(*rules, cells as nat));
        }
        proof {
            assert(self.events().take(old(self).events().len() as int) =~= old(self).events());
        }
        if variants_count == 1 {
            let instance = rules.model(0).to_instance();
            let mut k: usize = 0;
            while k < cells
                invariant
                    k <= cells,
                    cells == grid.spec_total_size(),
                    count == 1,
                    count == rules.variants().len(),
                    self.consistent(*rules, *grid, None, nowhere()),
                    self.attempt_start() == old(self).events().len(),
                    self.events().len() == self.attempt_start() + k,
                    self.counters() == fresh_counters(*rules, cells as nat),
                    extends(self.events(), old(self).events()),
                    self.state().pending().len() == 0,
                    self.domains() == full_domains(cells as nat, count),
                    instance.model_index == rules.variants()[0].original_index,
                    instance.rotation == rules.variants()[0].rotation,
                    forall|i: int|
                        0 <= i < k ==> #[trigger] self.events()[self.attempt_start() + i]
                            == generated_for(*rules, i, 0),
                    forall|c: int|
                        0 <= c < grid.spec_total_size() ==> #[trigger] self.state().spec_jitter(c)
                            == output(state_after(old(rng).state(), c as nat)) % JITTER_RANGE,
                    rng.state() == state_after(old(rng).state(), grid.spec_total_size() as nat),
                decreases cells - k,
            {
                let ghost before = self.events();
                self.events.push(
                    GenerationUpdate::Generated {
                        node: GridNode { node_index: k, model_instance: instance },
                        variant_index: 0,
                    },
                );
                proof {
                    assert(self.events().take(old(self).events().len() as int) =~= before.take(
                        old(self).events().len() as int,
                    ));
                }
                k += 1;
            }
            proof {
                let tail = self.attempt_events();
                assert(tail.len() == cells);
                assert forall|i: int| 0 <= i < tail.len() implies #[trigger] tail[i]
                    == generated_for(*rules, i, 0) by {
                    assert(tail[i] == self.events()[self.attempt_start() + i]);
                }
                assert(tail =~= first_events(*rules, cells as nat));
                assert(self.events() =~= old(self).events() + tail) by {
                    assert forall|i: int| 0 <= i < old(self).events().len() implies self.events()[i]
                        == old(self).events()[i] by {
                        assert(self.events().take(old(self).events().len() as int)[i] == old(
                            self,
                        ).events()[i]);
                    }
                }
                assert forall|c: int| 0 <= c < cells implies #[trigger] self.state().domain(c)
                    == full_domain(1) by {
                    assert(self.domains()[c] == full_domain(1));
                }
                assert forall|c: int|
                    0 <= c < self.state().cells() && #[trigger] self.state().spec_count(c)
                        <= 1 implies exists|i: int|
                    0 <= i < tail.len() && event_cell(#[trigger] tail[i]) == c by {
                    assert(event_cell(tail[c]) == c);
                }
            }
        } else {
            proof {
                assert(self.attempt_events().len() == 0);
                assert(self.events() =~= old(self).events() + first_events(*rules, cells as nat));
                assert forall|c: int| 0 <= c < cells implies self.state().spec_count(c)
                    == count by {
                    assert(self.domains()[c] == full_domain(count));
                }
                assert(extends(self.events(), old(self).events())) by {
                    assert(self.events().take(old(self).events().len() as int) =~= old(
                        self,
                    ).events());
                }
            }
        }
    }

    /// Takes `variant` out of the domain of `cell`, where it is, and tells
    /// of the cell if that leaves it one variant. Gives the number of
    /// variants left in the cell.
    fn ban(
        &mut self,
        rules: &Rules,
        grid: &GridDefinition,
        cell: usize,
        variant: usize,
        Ghost(flight): Ghost<Option<Flight>>,
        Ghost(start): Ghost<Seq<Seq<bool>>>,
    ) -> (left: usize)
        requires
            old(self).consistent(*rules, *grid, flight, (cell as int, variant as int)),
            old(self).faithful(*rules),
            cell < grid.spec_total_size(),
            variant < rules.variants().len(),
            old(self).state().possible(cell as int, variant as int),
            keeps_closure(
                *rules,
                *grid,
                start,
                old(self).domains().update(
                    cell as int,
                    old(self).domains()[cell as int].update(variant as int, false),
                ),
            ),
        ensures
            final(self).wave(flight) == after_removal(
                old(self).wave(flight),
                cell as int,
                variant as int,
            ),
            final(self).trail(
                flight,
                if left == 0 {
                    Some(cell as int)
                } else {
                    None
                },
            ) == ban_trail(*rules, old(self).trail(flight, None), cell as int, variant as int),
            final(self).consistent(*rules, *grid, flight, nowhere()),
            final(self).faithful(*rules),
            keeps_closure(*rules, *grid, start, final(self).domains()),
            within(final(self).domains(), old(self).domains()),
            left == final(self).state().spec_count(cell as int),
            left + 1 == old(self).state().spec_count(cell as int),
            final(self).measure() + 1 == old(self).measure(),
            forall|c: int|
                0 <= c < grid.spec_total_size() && c != cell ==> #[trigger] final(self).state().domain(
                    c,
                ) == old(self).state().domain(c),
            final(self).attempt_start() == old(self).attempt_start(),
            extends(final(self).events(), old(self).events()),
            forall|c: int|
                0 <= c < grid.spec_total_size() ==> #[trigger] final(self).state().spec_jitter(c)
                    == old(self).state().spec_jitter(c),
    {
        let ghost before = self.wave(flight);
        let ghost old_tail = self.attempt_events();
        let removed = self.state.remove(rules, cell, variant);
        proof {
            lemma_removal(*rules, *grid, before, cell as int, variant as int);
            assert(self.domains() =~= after_removal(before, cell as int, variant as int).domains);
            assert(self.counters() =~= before.counters);
            assert(self.wave(flight) == after_removal(before, cell as int, variant as int));
            lemma_variant_leaves(
                rules.variants(),
                old(self).state().domain(cell as int),
                variant as int,
            );
            assert(self.attempt_events() =~= old_tail);
            assert forall|c: int| 0 <= c < grid.spec_total_size() && c != cell implies self.state().spec_count(
            c) == old(self).state().spec_count(c) by {}
            lemma_bits_removal(before.domains, cell as int, variant as int);
        }
        let left = self.state.count(rules, cell);
        if left == 1 {
            let found = self.state.next_possible(rules, cell, 0);
            let last = match found {
                Some(v) => v,
                None => {
                    proof {
                        let domain = self.state().domain(cell as int);
                        let keep = |i: int| domain[i];
                        lemma_count_zero(rules.variants().len(), keep);
                        assert forall|i: int|
                            0 <= i < rules.variants().len() implies !#[trigger] keep(i) by {
                            assert(!self.state().possible(cell as int, i));
                        }
                        assert(false);
                    }
                    0
                },
            };
            let instance = rules.model(last).to_instance();
            let ghost events_before = self.events();
            self.events.push(
                GenerationUpdate::Generated {
                    node: GridNode { node_index: cell, model_instance: instance },
                    variant_index: last,
                },
            );
            proof {
                let tail = self.attempt_events();
                assert(tail =~= old_tail.push(generated_for(*rules, cell as int, last as int)));
                assert(self.events().take(events_before.len() as int) =~= events_before);
                let domain = self.state().domain(cell as int);
                assert(domain.len() == rules.variants().len());
                assert(domain[last as int]);
                let other = member(domain);
                lemma_count_one(
                    rules.variants().len(),
                    |i: int| domain[i],
                    last as int,
                    other,
                );
                assert(after_removal(before, cell as int, variant as int).domains[cell as int]
                    == domain);
                assert(self.domains() =~= after_removal(before, cell as int, variant as int).domains);
                assert(self.counters() =~= before.counters);
                // the cell had no event: it had two variants
                assert forall|i: int| 0 <= i < old_tail.len() implies event_cell(
                    #[trigger] old_tail[i],
                ) != cell by {
                    assert(old(self).state().spec_count(event_cell(old_tail[i])) <= 1);
                }
                assert forall|i: int| 0 <= i < tail.len() implies {
                    let c = event_cell(#[trigger] tail[i]);
                    &&& tail[i] is Generated
                    &&& 0 <= c < self.state().cells()
                    &&& tail[i]->variant_index < rules.variants().len()
                    &&& tail[i] == generated_for(*rules, c, tail[i]->variant_index as int)
                    &&& self.state().spec_count(c) <= 1
                    &&& self.state().spec_count(c) == 1 ==> self.state().possible(
                        c,
                        tail[i]->variant_index as int,
                    )
                } by {
                    if i < old_tail.len() {
                        assert(tail[i] == old_tail[i]);
                        let c = event_cell(old_tail[i]);
                        assert(c != cell);
                        assert(self.state().domain(c) == old(self).state().domain(c));
                    }
                }
                assert forall|i: int, j: int|
                    0 <= i < tail.len() && 0 <= j < tail.len() && i != j implies event_cell(
                    #[trigger] tail[i],
                ) != event_cell(#[trigger] tail[j]) by {
                    if i < old_tail.len() {
                        assert(tail[i] == old_tail[i]);
                    }
                    if j < old_tail.len() {
                        assert(tail[j] == old_tail[j]);
                    }
                }
                assert forall|c: int|
                    0 <= c < self.state().cells() && #[trigger] self.state().spec_count(c)
                        <= 1 implies exists|i: int|
                    0 <= i < tail.len() && event_cell(#[trigger] tail[i]) == c by {
                    if c == cell {
                        assert(event_cell(tail[old_tail.len() as int]) == c);
                    } else {
                        assert(old(self).state().spec_count(c) <= 1);
                        let i = choose|i: int|
                            0 <= i < old_tail.len() && event_cell(#[trigger] old_tail[i]) == c;
                        assert(tail[i] == old_tail[i]);
                    }
                }
            }
        } else {
            proof {
                let tail = self.attempt_events();
                assert(tail == old_tail);
                assert forall|i: int| 0 <= i < tail.len() implies {
                    let c = event_cell(#[trigger] tail[i]);
                    &&& tail[i] is Generated
                    &&& 0 <= c < self.state().cells()
                    &&& tail[i]->variant_index < rules.variants().len()
                    &&& tail[i] == generated_for(*rules, c, tail[i]->variant_index as int)
                    &&& self.state().spec_count(c) <= 1
                    &&& self.state().spec_count(c) == 1 ==> self.state().possible(
                        c,
                        tail[i]->variant_index as int,
                    )
                } by {
                    let c = event_cell(old_tail[i]);
                    assert(old(self).state().spec_count(c) <= 1);
                    if c != cell {
                        assert(self.state().domain(c) == old(self).state().domain(c));
                    }
                }
                assert forall|c: int|
                    0 <= c < self.state().cells() && #[trigger] self.state().spec_count(c)
                        <= 1 implies exists|i: int|
                    0 <= i < tail.len() && event_cell(#[trigger] tail[i]) == c by {
                    if c != cell {
                        assert(self.state().domain(c) == old(self).state().domain(c));
                    }
                    assert(old(self).state().spec_count(c) <= 1);
                }
                assert(self.events().take(old(self).events().len() as int) =~= old(
                    self,
                ).events());
            }
        }
        left
    }

    /// Brings `cell` down to `variant`, and tells of the cell. The
    /// removals of the other variants wait to be propagated.
    pub fn collapse(&mut self, rules: &Rules, grid: &GridDefinition, cell: usize, variant: usize)
        requires
            old(self).consistent(*rules, *grid, None, nowhere()),
            old(self).faithful(*rules),
            cell < grid.spec_total_size(),
            variant < rules.variants().len(),
            old(self).state().possible(cell as int, variant as int),
            old(self).state().spec_count(cell as int) > 1,
        ensures
            final(self).consistent(*rules, *grid, None, nowhere()),
            final(self).faithful(*rules),
            final(self).domains() == collapsed(old(self).domains(), cell as int, variant as int),
            final(self).wave(None) == collapsing(
                old(self).wave(None),
                cell as int,
                variant as int,
                rules.variants().len(),
            ),
            final(self).state().spec_count(cell as int) == 1,
            final(self).measure() < old(self).measure(),
            final(self).attempt_start() == old(self).attempt_start(),
            final(self).events() == old(self).events().push(
                generated_for(*rules, cell as int, variant as int),
            ),
            forall|c: int|
                0 <= c < grid.spec_total_size() ==> #[trigger] final(self).state().spec_jitter(c)
                    == old(self).state().spec_jitter(c),
    {
        let ghost before = self.wave(None);
        let ghost old_tail = self.attempt_events();
        let ghost count = rules.variants().len();
        self.state.collapse_to(rules, cell, variant);
        proof {
            let target = collapsing(before, cell as int, variant as int, count);
            lemma_collapse(*rules, *grid, before, cell as int, variant as int, count);
            assert(before.domains[cell as int] == old(self).state().domain(cell as int));
            assert(self.domains() =~~= target.domains);
            assert(self.counters() =~= before.counters);
            assert(self.wave(None) == target);
            assert(self.domains() =~~= collapsed(before.domains, cell as int, variant as int));
            let single = self.state().domain(cell as int);
            let keep = |i: int| single[i];
            let other = |i: int| false;
            lemma_sum_remove(count, keep, other, |i: int| 1nat, variant as int);
            lemma_count_zero(count, other);
            lemma_variant_leaves(
                rules.variants(),
                old(self).state().domain(cell as int),
                variant as int,
            );
            lemma_count_zero(
                count,
                |i: int| old(self).state().domain(cell as int).update(variant as int, false)[i],
            );
            lemma_collapse_removes(
                old(self).state().domain(cell as int),
                cell,
                variant as int,
                count,
            );
        }
        let instance = rules.model(variant).to_instance();
        self.events.push(
            GenerationUpdate::Generated {
                node: GridNode { node_index: cell, model_instance: instance },
                variant_index: variant,
            },
        );
        proof {
            let tail = self.attempt_events();
            assert(tail =~= old_tail.push(generated_for(*rules, cell as int, variant as int)));
            assert(self.domains() =~~= collapsed(before.domains, cell as int, variant as int));
            assert(self.counters() =~= before.counters);
            assert forall|i: int| 0 <= i < old_tail.len() implies event_cell(
                #[trigger] old_tail[i],
            ) != cell by {
                assert(old(self).state().spec_count(event_cell(old_tail[i])) <= 1);
            }
            assert forall|i: int| 0 <= i < tail.len() implies {
                let c = event_cell(#[trigger] tail[i]);
                &&& tail[i] is Generated
                &&& 0 <= c < self.state().cells()
                &&& tail[i]->variant_index < rules.variants().len()
                &&& tail[i] == generated_for(*rules, c, tail[i]->variant_index as int)
                &&& self.state().spec_count(c) <= 1
                &&& self.state().spec_count(c) == 1 ==> self.state().possible(
                    c,
                    tail[i]->variant_index as int,
                )
            } by {
                if i < old_tail.len() {
                    assert(tail[i] == old_tail[i]);
                    let c = event_cell(old_tail[i]);
                    assert(c != cell);
                    assert(self.state().domain(c) == old(self).state().domain(c));
                }
            }
            assert forall|i: int, j: int|
                0 <= i < tail.len() && 0 <= j < tail.len() && i != j implies event_cell(
                #[trigger] tail[i],
            ) != event_cell(#[trigger] tail[j]) by {
                if i < old_tail.len() {
                    assert(tail[i] == old_tail[i]);
                }
                if j < old_tail.len() {
                    assert(tail[j] == old_tail[j]);
                }
            }
            assert forall|c: int|
                0 <= c < self.state().cells() && #[trigger] self.state().spec_count(c)
                    <= 1 implies exists|i: int|
                0 <= i < tail.len() && event_cell(#[trigger] tail[i]) == c by {
                if c == cell {
                    assert(event_cell(tail[old_tail.len() as int]) == c);
                } else {
                    assert(self.state().domain(c) == old(self).state().domain(c));
                    assert(old(self).state().spec_count(c) <= 1);
                    let i = choose|i: int|
                        0 <= i < old_tail.len() && event_cell(#[trigger] old_tail[i]) == c;
                    assert(tail[i] == old_tail[i]);
                }
            }
        }
    }

    /// Propagates the removals that wait, oldest first, until none waits
    /// or a cell has no variant left. A removal is counted off the counter
    /// of each variant that accepted the removed variant, in the neighbour
    /// on each side; a variant whose counter comes to nothing leaves its
    /// domain, and its removal waits in turn. Gives the cell that has no
    /// variant left, if there is one.
    pub fn propagate(&mut self, rules: &Rules, grid: &GridDefinition) -> (result: Result<
        (),
        usize,
    >)
        requires
            old(self).consistent(*rules, *grid, None, nowhere()),
            old(self).faithful(*rules),
            old(self).alive(),
        ensures
            match result {
                Ok(()) => {
                    &&& final(self).consistent(*rules, *grid, None, nowhere())
                    &&& final(self).state().pending().len() == 0
                    &&& arc_consistent(*rules, *grid, final(self).domains())
                    &&& final(self).alive()
                },
                Err(cell) => {
                    &&& cell < grid.spec_total_size()
                    &&& final(self).state().spec_count(cell as int) == 0
                    &&& final(self).state().wf(*rules)
                    &&& final(self).state().cells() == grid.spec_total_size()
                },
            },
            final(self).propagated(
                *rules,
                *grid,
                old(self).trail(None, None),
                match result {
                    Ok(()) => None,
                    Err(cell) => Some(cell as int),
                },
            ),
            final(self).faithful(*rules),
            keeps_closure(*rules, *grid, old(self).domains(), final(self).domains()),
            within(final(self).domains(), old(self).domains()),
            is_family(*rules, *grid, final(self).domains()),
            final(self).attempt_start() == old(self).attempt_start(),
            extends(final(self).events(), old(self).events()),
            forall|c: int|
                0 <= c < grid.spec_total_size() ==> #[trigger] final(self).state().spec_jitter(c)
                    == old(self).state().spec_jitter(c),
    {
        let faces = rules.directions_count();
        let ghost start = self.domains();
        proof {
            assert(keeps_closure(*rules, *grid, start, start));
        }
        proof {
            assert(old(self).events().take(old(self).events().len() as int) =~= old(
                self,
            ).events());
            assert(is_family(*rules, *grid, self.domains()));
        }
        let ghost origin = self.trail(None, None);
        let ghost mut rounds: nat = 0;
        loop
            invariant
                faces == rules.faces(),
                start == old(self).domains(),
                origin == old(self).trail(None, None),
                self.trail(None, None) == drain_trail(*rules, *grid, origin, rounds),
                self.consistent(*rules, *grid, None, nowhere()),
                self.faithful(*rules),
                self.alive(),
                keeps_closure(*rules, *grid, start, self.domains()),
                within(self.domains(), old(self).domains()),
                self.attempt_start() == old(self).attempt_start(),
                extends(self.events(), old(self).events()),
                forall|c: int|
                    0 <= c < grid.spec_total_size() ==> #[trigger] self.state().spec_jitter(c)
                        == old(self).state().spec_jitter(c),
            decreases self.measure(),
        {
            let ghost at_pop = self.wave(None);
            let ghost tail_events = self.events();
            let ghost measure_before = self.measure();
            let ghost tail_before = self.attempt_events();
            let ghost engine_before = *self;
            let entry = self.state.pop(rules);
            proof {
                lemma_faithful_same(engine_before, *self, *rules);
            }
            let (cell, variant) = match entry {
                Some(found) => found,
                None => {
                    proof {
                        assert(self.domains() =~~= at_pop.domains);
                        assert(self.counters() =~= at_pop.counters);
                        assert(self.wave(None) == at_pop);
                        lemma_settled(*rules, *grid, self.wave(None));
                        let end = drain_trail(*rules, *grid, origin, rounds);
                        assert(settled(end));
                    }
                    return Ok(());
                },
            };
            let ghost round_start = Trail { wave: at_pop, events: tail_events, dead: None };
            let ghost popped = Trail {
                wave: after_pop(at_pop),
                events: tail_events,
                dead: None,
            };
            let ghost round_target = directions_trail(*rules, *grid, popped);
            proof {
                lemma_pop(*rules, *grid, at_pop);
                assert(self.domains() =~~= at_pop.domains);
                assert(self.counters() =~= at_pop.counters);
                assert(self.wave(after_pop(at_pop).flight) == after_pop(at_pop));
                lemma_positive_same(*rules, *grid, at_pop, after_pop(at_pop), nowhere());
                assert(round_start == drain_trail(*rules, *grid, origin, rounds));
                assert(!settled(round_start));
                lemma_drain_round(*rules, *grid, origin, rounds);
                assert(self.attempt_events() =~= tail_before);
                assert(at_pop.pending[0] == (cell, variant));
            }
            let mut d: usize = 0;
            while d < faces
                invariant
                    d <= faces,
                    faces == rules.faces(),
                    cell < grid.spec_total_size(),
                    variant < rules.variants().len(),
                    self.consistent(
                        *rules,
                        *grid,
                        Some(
                            Flight {
                                cell: cell as int,
                                variant: variant as int,
                                direction: d as int,
                                position: 0,
                            },
                        ),
                        nowhere(),
                    ),
                    self.faithful(*rules),
                    self.alive(),
                    keeps_closure(*rules, *grid, start, self.domains()),
                    within(self.domains(), old(self).domains()),
                    self.measure() < measure_before,
                    self.attempt_start() == old(self).attempt_start(),
                    extends(self.events(), old(self).events()),
                    forall|c: int|
                        0 <= c < grid.spec_total_size() ==> #[trigger] self.state().spec_jitter(c)
                            == old(self).state().spec_jitter(c),
                    origin == old(self).trail(None, None),
                    round_start == drain_trail(*rules, *grid, origin, rounds),
                    !settled(round_start),
                    round_target == round_trail_flown(*rules, *grid, round_start),
                    start == old(self).domains(),
                    directions_trail(
                        *rules,
                        *grid,
                        self.trail(
                            Some(
                                Flight {
                                    cell: cell as int,
                                    variant: variant as int,
                                    direction: d as int,
                                    position: 0,
                                },
                            ),
                            None,
                        ),
                    ) == round_target,
                decreases faces - d,
            {
                let direction = Direction::from_index(d);
                let ghost flight_here = Flight {
                    cell: cell as int,
                    variant: variant as int,
                    direction: d as int,
                    position: 0,
                };
                proof {
                    lemma_opposite_involution(direction);
                    assert(rules.system().has(direction));
                }
                match grid.get_next_index(cell, direction) {
                    None => {
                        proof {
                            lemma_next_direction(*rules, *grid, self.wave(Some(flight_here)));
                            lemma_positive_same(
                                *rules,
                                *grid,
                                self.wave(Some(flight_here)),
                                with_progress(self.wave(Some(flight_here)), d + 1, 0),
                                nowhere(),
                            );
                            assert(self.wave(
                                Some(
                                    Flight {
                                        cell: cell as int,
                                        variant: variant as int,
                                        direction: d + 1,
                                        position: 0,
                                    },
                                ),
                            ) == with_progress(self.wave(Some(flight_here)), d + 1, 0));
                            let here = self.trail(Some(flight_here), None);
                            assert(directions_trail(*rules, *grid, here) == directions_trail(
                                *rules,
                                *grid,
                                at_direction(here, d + 1),
                            ));
                        }
                    },
                    Some(next) => {
                        let ghost direction_start = self.trail(Some(flight_here), None);
                        let ghost list_target = list_trail(*rules, *grid, direction_start);
                        let list = rules.supported_models(variant, direction);
                        let mut k: usize = 0;
                        while k < list.len()
                            invariant
                                k <= list.len(),
                                d < faces,
                                faces == rules.faces(),
                                direction == Direction::spec_from_index(d as int),
                                direction.spec_index() == d,
                                rules.system().has(direction),
                                cell < grid.spec_total_size(),
                                variant < rules.variants().len(),
                                grid.neighbor(cell as int, direction) == Some(next as int),
                                next < grid.spec_total_size(),
                                list@ == rules.support(variant as int, direction),
                                self.consistent(
                                    *rules,
                                    *grid,
                                    Some(
                                        Flight {
                                            cell: cell as int,
                                            variant: variant as int,
                                            direction: d as int,
                                            position: k as int,
                                        },
                                    ),
                                    nowhere(),
                                ),
                                self.faithful(*rules),
                                self.alive(),
                                keeps_closure(*rules, *grid, start, self.domains()),
                                within(self.domains(), old(self).domains()),
                                self.measure() < measure_before,
                                self.attempt_start() == old(self).attempt_start(),
                                extends(self.events(), old(self).events()),
                                origin == old(self).trail(None, None),
                                round_start == drain_trail(*rules, *grid, origin, rounds),
                                !settled(round_start),
                                round_target == round_trail_flown(*rules, *grid, round_start),
                                start == old(self).domains(),
                                directions_trail(*rules, *grid, direction_start) == round_target,
                                direction_start.dead is None,
                                direction_start.wave.flight == Some(
                                    Flight {
                                        cell: cell as int,
                                        variant: variant as int,
                                        direction: d as int,
                                        position: 0,
                                    },
                                ),
                                list_target == list_trail(*rules, *grid, direction_start),
                                list_trail(
                                    *rules,
                                    *grid,
                                    self.trail(
                                        Some(
                                            Flight {
                                                cell: cell as int,
                                                variant: variant as int,
                                                direction: d as int,
                                                position: k as int,
                                            },
                                        ),
                                        None,
                                    ),
                                ) == list_target,
                                forall|c: int|
                                    0 <= c < grid.spec_total_size()
                                        ==> #[trigger] self.state().spec_jitter(c) == old(
                                        self,
                                    ).state().spec_jitter(c),
                            decreases list.len() - k,
                        {
                            let backed = list[k];
                            let ghost flight_now = Flight {
                                cell: cell as int,
                                variant: variant as int,
                                direction: d as int,
                                position: k as int,
                            };
                            let ghost flight_next = Flight {
                                cell: cell as int,
                                variant: variant as int,
                                direction: d as int,
                                position: k + 1,
                            };
                            let ghost before = self.wave(Some(flight_now));
                            let ghost tail_now = self.attempt_events();
                            let ghost state_now = self.state();
                            proof {
                                lemma_decrement(*rules, *grid, before);
                                assert(before.counters[next as int][backed as int][d as int]
                                    == self.supports_count@[next as int]@[backed as int]@[d as int]);
                            }
                            let value = self.supports_count[next][backed][d] - 1;
                            self.supports_count[next][backed][d] = value;
                            proof {
                                let after = after_decrement(
                                    before,
                                    next as int,
                                    backed as int,
                                    direction,
                                );
                                assert(self.counters() =~~= after.counters);
                                assert(self.domains() =~~= before.domains);
                                assert(self.wave(Some(flight_next)) == after);
                                assert(self.attempt_events() =~= tail_now);
                                assert(self.state() == state_now);
                            }
                            let still = self.state.is_possible(rules, next, backed);
                            let ghost before_trail = Trail {
                                wave: before,
                                events: self.events(),
                                dead: None,
                            };
                            let ghost counted = self.trail(Some(flight_next), None);
                            proof {
                                assert(list_trail(*rules, *grid, before_trail) == list_trail(
                                    *rules,
                                    *grid,
                                    entry_trail(*rules, *grid, before_trail),
                                ));
                                assert(counted.wave.counters[next as int][backed as int][d as int]
                                    == value);
                                assert(counted.wave.domains[next as int][backed as int] == still);
                            }
                            if value == 0 && still {
                                proof {
                                    lemma_unbacked_leaves(
                                        *rules,
                                        *grid,
                                        self.wave(Some(flight_next)),
                                        start,
                                        next as int,
                                        backed as int,
                                        direction.spec_opposite(),
                                    );
                                }
                                let ghost events_now = self.events();
                                let ghost domains_now = self.domains();
                                let left = self.ban(
                                    rules,
                                    grid,
                                    next,
                                    backed,
                                    Ghost(Some(flight_next)),
                                    Ghost(start),
                                );
                                proof {
                                    lemma_extends(
                                        self.events(),
                                        events_now,
                                        old(self).events(),
                                    );
                                    lemma_within(self.domains(), domains_now, old(self).domains());
                                }
                                if left == 0 {
                                    proof {
                                        let died = self.trail(
                                            Some(flight_next),
                                            Some(next as int),
                                        );
                                        assert(died == entry_trail(*rules, *grid, before_trail));
                                        assert(list_trail(*rules, *grid, died) == died);
                                        assert(died == list_target);
                                        assert(directions_trail(*rules, *grid, direction_start)
                                            == died);
                                        assert(round_trail(*rules, *grid, round_start) == died);
                                        lemma_drain_round(*rules, *grid, origin, rounds);
                                        let end = drain_trail(*rules, *grid, origin, rounds + 1);
                                        assert(end == died);
                                        assert(settled(end));
                                    }
                                    return Err(next);
                                }
                                proof {
                                    assert(self.trail(Some(flight_next), None) == entry_trail(
                                        *rules,
                                        *grid,
                                        before_trail,
                                    ));
                                    assert forall|c: int|
                                        0 <= c < self.state().cells() implies #[trigger] self.state().spec_count(
                                    c) > 0 by {
                                        if c != next {
                                            assert(self.state().domain(c) == state_now.domain(c));
                                            assert(state_now.spec_count(c) > 0);
                                        }
                                    }
                                }
                            } else {
                                proof {
                                    assert(counted == entry_trail(*rules, *grid, before_trail));
                                    let w = self.wave(Some(flight_next));
                                    assert forall|c: int, v: int, side: Direction|
                                        0 <= c < grid.spec_total_size() && 0 <= v
                                            < rules.variants().len() && rules.system().has(side)
                                            && grid.neighbor(c, side) is Some && w.domains[c][v]
                                            && (c, v) != nowhere() implies #[trigger] counter(
                                        w,
                                        c,
                                        v,
                                        side,
                                    ) > 0 || rules.support(v, side).len() == 0 by {
                                        if c == next && v == backed {
                                            lemma_opposite_involution(side);
                                            crate::grid::lemma_neighbor_mutual(*grid, c, side);
                                            if side.spec_opposite().spec_index() == d {
                                                assert(side.spec_opposite() == direction);
                                            } else {
                                                assert(counter(w, c, v, side) == counter(
                                                    before,
                                                    c,
                                                    v,
                                                    side,
                                                ));
                                            }
                                        }
                                    }
                                }
                            }
                            k += 1;
                        }
                        proof {
                            let flight_end = Flight {
                                cell: cell as int,
                                variant: variant as int,
                                direction: d as int,
                                position: k as int,
                            };
                            lemma_next_direction(*rules, *grid, self.wave(Some(flight_end)));
                            lemma_positive_same(
                                *rules,
                                *grid,
                                self.wave(Some(flight_end)),
                                with_progress(self.wave(Some(flight_end)), d + 1, 0),
                                nowhere(),
                            );
                            assert(self.wave(
                                Some(
                                    Flight {
                                        cell: cell as int,
                                        variant: variant as int,
                                        direction: d + 1,
                                        position: 0,
                                    },
                                ),
                            ) == with_progress(self.wave(Some(flight_end)), d + 1, 0));
                            let ended = self.trail(Some(flight_end), None);
                            assert(list_trail(*rules, *grid, ended) == ended);
                            assert(ended == list_target);
                            assert(directions_trail(*rules, *grid, direction_start)
                                == directions_trail(
                                *rules,
                                *grid,
                                at_direction(ended, d + 1),
                            ));
                        }
                    },
                }
                d += 1;
            }
            proof {
                let flight_end = Flight {
                    cell: cell as int,
                    variant: variant as int,
                    direction: d as int,
                    position: 0,
                };
                lemma_landing(*rules, *grid, self.wave(Some(flight_end)));
                lemma_positive_same(
                    *rules,
                    *grid,
                    self.wave(Some(flight_end)),
                    after_landing(self.wave(Some(flight_end))),
                    nowhere(),
                );
                assert(self.wave(None) == after_landing(self.wave(Some(flight_end))));
                let flown = self.trail(Some(flight_end), None);
                assert(directions_trail(*rules, *grid, flown) == flown);
                assert(flown == round_target);
                assert(round_trail(*rules, *grid, round_start) == self.trail(None, None));
                rounds = rounds + 1;
            }
        }
    }
}

/// Whether a log is faithful depends on the log and the domains alone.
pub proof fn lemma_faithful_same(before: Propagator, after: Propagator, rules: Rules)
    requires
        before.faithful(rules),
        after.events() == before.events(),
        after.attempt_start() == before.attempt_start(),
        after.state().cells() == before.state().cells(),
        forall|c: int|
            0 <= c < before.state().cells() ==> #[trigger] after.state().domain(c)
                == before.state().domain(c),
    ensures
        after.faithful(rules),
{
    let tail = after.attempt_events();
    assert(tail == before.attempt_events());
    assert forall|i: int| 0 <= i < tail.len() implies {
        let cell = event_cell(#[trigger] tail[i]);
        &&& tail[i] is Generated
        &&& 0 <= cell < after.state().cells()
        &&& tail[i]->variant_index < rules.variants().len()
        &&& tail[i] == generated_for(rules, cell, tail[i]->variant_index as int)
        &&& after.state().spec_count(cell) <= 1
        &&& after.state().spec_count(cell) == 1 ==> after.state().possible(
            cell,
            tail[i]->variant_index as int,
        )
    } by {
        let cell = event_cell(tail[i]);
        assert(after.state().domain(cell) == before.state().domain(cell));
    }
    assert forall|c: int|
        0 <= c < after.state().cells() && #[trigger] after.state().spec_count(c)
            <= 1 implies exists|i: int|
        0 <= i < tail.len() && event_cell(#[trigger] tail[i]) == c by {
        assert(after.state().domain(c) == before.state().domain(c));
        assert(before.state().spec_count(c) <= 1);
    }
}

/// What is within a family that is within another is within the other.
pub proof fn lemma_within(inner: Seq<Seq<bool>>, middle: Seq<Seq<bool>>, outer: Seq<Seq<bool>>)
    requires
        within(inner, middle),
        within(middle, outer),
        inner.len() == middle.len(),
        forall|c: int| 0 <= c < inner.len() ==> (#[trigger] inner[c]).len() == middle[c].len(),
    ensures
        within(inner, outer),
{
    assert forall|c: int, v: int|
        0 <= c < inner.len() && 0 <= v < inner[c].len()
            && #[trigger] inner[c][v] implies outer[c][v] by {
        assert(middle[c][v]);
    }
}

/// A log extends itself, and what extends an extension extends the log.
pub proof fn lemma_extends(
    longest: Seq<GenerationUpdate>,
    longer: Seq<GenerationUpdate>,
    shorter: Seq<GenerationUpdate>,
)
    requires
        extends(longest, longer),
        extends(longer, shorter),
    ensures
        extends(longest, shorter),
        extends(shorter, shorter),
{
    assert(longest.take(shorter.len() as int) =~= longer.take(shorter.len() as int)) by {
        assert forall|i: int| 0 <= i < shorter.len() implies longest.take(shorter.len() as int)[i]
            == longer.take(shorter.len() as int)[i] by {
            assert(longest.take(longer.len() as int)[i] == longer[i]);
        }
    }
    assert(shorter.take(shorter.len() as int) =~= shorter);
}

/// Number of variants in the domains, all cells together.
pub open spec fn bits(domains: Seq<Seq<bool>>) -> nat {
    sum_where(domains.len(), |c: int| true, |c: int| count_true(domains[c]))
}

/// When a variant leaves a domain, there is one variant less in the domains.
pub proof fn lemma_bits_removal(domains: Seq<Seq<bool>>, cell: int, variant: int)
    requires
        0 <= cell < domains.len(),
        0 <= variant < domains[cell].len(),
        domains[cell][variant],
    ensures
        bits(domains) == bits(domains.update(cell, domains[cell].update(variant, false))) + 1,
{
    let after = domains.update(cell, domains[cell].update(variant, false));
    let before_cell = domains[cell];
    let after_cell = before_cell.update(variant, false);
    lemma_sum_remove(
        before_cell.len(),
        |v: int| before_cell[v],
        |v: int| after_cell[v],
        |v: int| 1nat,
        variant,
    );
    assert(after[cell] == after_cell);
    lemma_sum_lighter(
        domains.len(),
        |c: int| true,
        |c: int| count_true(domains[c]),
        |c: int| count_true(after[c]),
        cell,
    );
}

/// Collapsing a cell in which more than the kept variant is possible puts
/// a removal on the worklist.
pub proof fn lemma_collapse_removes(domain: Seq<bool>, cell: usize, keep: int, n: nat)
    requires
        n <= domain.len(),
    ensures
        (exists|u: int| 0 <= u < n && u != keep && #[trigger] domain[u]) ==> removed_entries(
            domain,
            cell,
            keep,
            n,
        ).len() > 0,
    decreases n,
{
    if n > 0 {
        lemma_collapse_removes(domain, cell, keep, (n - 1) as nat);
        if exists|u: int| 0 <= u < n && u != keep && #[trigger] domain[u] {
            let u = choose|u: int| 0 <= u < n && u != keep && #[trigger] domain[u];
            if u < n - 1 {
            }
        }
    }
}

/// The wave while a cell is brought down to one variant: the variants
/// below `n` have left the domain of `cell`, but for `keep`.
pub open spec fn collapsing(w: Wave, cell: int, keep: int, n: nat) -> Wave {
    Wave {
        domains: w.domains.update(
            cell,
            Seq::new(w.domains[cell].len(), |u: int| w.domains[cell][u] && (u >= n || u == keep)),
        ),
        pending: w.pending + removed_entries(w.domains[cell], cell as usize, keep, n),
        counters: w.counters,
        flight: w.flight,
    }
}

/// Bringing a cell down to one variant keeps the counters true and positive.
pub proof fn lemma_collapse(rules: Rules, grid: GridDefinition, w: Wave, cell: int, keep: int, n: nat)
    requires
        rules.wf(),
        shaped(rules, grid, w),
        counters_exact(rules, grid, w),
        counters_positive(rules, grid, w, nowhere()),
        0 <= cell < grid.spec_total_size(),
        0 <= keep < rules.variants().len(),
        n <= rules.variants().len(),
    ensures
        shaped(rules, grid, collapsing(w, cell, keep, n)),
        counters_exact(rules, grid, collapsing(w, cell, keep, n)),
        counters_positive(rules, grid, collapsing(w, cell, keep, n), nowhere()),
        bits(collapsing(w, cell, keep, n).domains) + removed_entries(
            w.domains[cell],
            cell as usize,
            keep,
            n,
        ).len() == bits(w.domains),
    decreases n,
{
    let domain = w.domains[cell];
    assert(domain.len() == rules.variants().len());
    if n == 0 {
        assert(collapsing(w, cell, keep, 0).domains =~~= w.domains);
        assert(collapsing(w, cell, keep, 0).pending =~= w.pending);
    } else {
        let before = collapsing(w, cell, keep, (n - 1) as nat);
        let after = collapsing(w, cell, keep, n);
        lemma_collapse(rules, grid, w, cell, keep, (n - 1) as nat);
        if domain[n - 1] && n - 1 != keep {
            assert(after.domains =~~= after_removal(before, cell, n - 1).domains);
            assert(after.pending =~= after_removal(before, cell, n - 1).pending);
            assert(after == after_removal(before, cell, n - 1));
            lemma_removal(rules, grid, before, cell, n - 1);
            lemma_bits_removal(before.domains, cell, n - 1);
        } else {
            assert(after.domains =~~= before.domains);
        }
    }
}

/// With full domains and nothing waiting, counters that hold the lengths
/// of the lists are true, and positive where the list is not empty.
pub proof fn lemma_fresh_counters(rules: Rules, grid: GridDefinition, w: Wave)
    requires
        rules.wf(),
        grid.spec_total_size() <= usize::MAX,
        w.domains == full_domains(grid.spec_total_size() as nat, rules.variants().len()),
        w.pending.len() == 0,
        w.flight is None,
        w.counters.len() == grid.spec_total_size(),
        forall|c: int|
            0 <= c < w.counters.len() ==> (#[trigger] w.counters[c]).len()
                == rules.variants().len(),
        forall|c: int, v: int|
            0 <= c < w.counters.len() && 0 <= v < rules.variants().len() ==> (
            #[trigger] w.counters[c][v]).len() == rules.faces(),
        forall|c: int, v: int, d: int|
            0 <= c < w.counters.len() && 0 <= v < rules.variants().len() && 0 <= d < rules.faces()
                ==> #[trigger] w.counters[c][v][d] == rules.support(
                v,
                Direction::spec_from_index(d).spec_opposite(),
            ).len(),
    ensures
        shaped(rules, grid, w),
        counters_exact(rules, grid, w),
        counters_positive(rules, grid, w, nowhere()),
{
    let count = rules.variants().len();
    assert forall|c: int, v: int, side: Direction|
        0 <= c < grid.spec_total_size() && 0 <= v < count && rules.system().has(side)
            && grid.neighbor(c, side) is Some implies #[trigger] counter(w, c, v, side)
        == count_where(count, backers(rules, w, grid.neighbor(c, side)->0, side, v)) by {
        let n = grid.neighbor(c, side)->0;
        crate::grid::lemma_neighbor_mutual(grid, c, side);
        lemma_opposite_involution(side);
        let back = side.spec_opposite();
        lemma_opposite_involution(back);
        let list = rules.support(v, side);
        assert(counter(w, c, v, side) == w.counters[c][v][back.spec_index()]);
        assert(Direction::spec_from_index(back.spec_index()) == back);
        assert(w.counters[c][v][back.spec_index()] == list.len());
        assert forall|i: int| 0 <= i < list.len() implies (#[trigger] list[i]) < count by {}
        lemma_list_count(list, count);
        assert forall|u: int| 0 <= u < count implies #[trigger] backers(rules, w, n, side, v)(u) == (
        |x: int| list.contains(x as usize))(u) by {
            assert(w.domains[n] == full_domain(count));
            assert(w.domains[n][u]);
        }
        lemma_sum_same(
            count,
            backers(rules, w, n, side, v),
            |i: int| 1nat,
            |x: int| list.contains(x as usize),
            |i: int| 1nat,
        );
    }
    assert forall|c: int, v: int, side: Direction|
        0 <= c < grid.spec_total_size() && 0 <= v < count && rules.system().has(side)
            && grid.neighbor(c, side) is Some && w.domains[c][v] && (c, v)
            != nowhere() implies #[trigger] counter(w, c, v, side) > 0 || rules.support(
        v,
        side,
    ).len() == 0 by {
        lemma_opposite_involution(side);
        let back = side.spec_opposite();
        lemma_opposite_involution(back);
        assert(Direction::spec_from_index(back.spec_index()) == back);
        assert(w.counters[c][v][back.spec_index()] == rules.support(v, side).len());
    }
    assert(is_family(rules, grid, w.domains));
}

} // verus!

verus! {

/// With full domains every cell has a variant left, as the rules have one.
pub proof fn lemma_full_alive(engine: Propagator, rules: Rules, cells: nat)
    requires
        rules.wf(),
        engine.state().cells() == cells,
        engine.domains() == full_domains(cells, rules.variants().len()),
    ensures
        engine.alive(),
{
    let count = rules.variants().len();
    assert forall|c: int| 0 <= c < engine.state().cells() implies #[trigger] engine.state().spec_count(
    c) > 0 by {
        assert(engine.domains()[c] == full_domain(count));
        assert(engine.state().domain(c) == full_domain(count));
        lemma_count_all(count, |i: int| full_domain(count)[i]);
    }
}

} // verus!
