use crate::generator::consistency::after_decrement;
use crate::generator::consistency::after_landing;
use crate::generator::consistency::after_pop;
use crate::generator::consistency::after_removal;
use crate::generator::consistency::with_progress;
use crate::generator::consistency::Wave;
use crate::generator::count::count_true;
use crate::generator::node::GridNode;
use crate::generator::node::ModelInstance;
use crate::generator::observer::GenerationUpdate;
use crate::generator::rules::Rules;
use crate::grid::direction::Direction;
use crate::grid::GridDefinition;
use vstd::prelude::*;

verus! {

/// The event that tells that `cell` came down to `variant`.
pub open spec fn generated_for(rules: Rules, cell: int, variant: int) -> GenerationUpdate {
    GenerationUpdate::Generated {
        node: GridNode {
            node_index: cell as usize,
            model_instance: ModelInstance {
                model_index: rules.variants()[variant].original_index,
                rotation: rules.variants()[variant].rotation,
            },
        },
        variant_index: variant as usize,
    }
}

/// A variant that the domain holds.
pub open spec fn member(domain: Seq<bool>) -> int {
    choose|v: int| 0 <= v < domain.len() && #[trigger] domain[v]
}

/// What a propagation has come to: what the engine holds, the log, and
/// the cell that has no variant left, if there is one.
pub struct Trail {
    pub wave: Wave,
    pub events: Seq<GenerationUpdate>,
    pub dead: Option<int>,
}

/// Whether the propagation has come to its end: a cell has no variant
/// left, or no removal waits.
pub open spec fn settled(t: Trail) -> bool {
    t.dead is Some || t.wave.pending.len() == 0
}

/// The trail after `variant` left the domain of `cell`: its removal waits;
/// if that leaves the cell one variant, the log tells of the cell; if it
/// leaves none, the cell is dead.
pub open spec fn ban_trail(rules: Rules, t: Trail, cell: int, variant: int) -> Trail {
    let wave = after_removal(t.wave, cell, variant);
    let left = count_true(wave.domains[cell]);
    Trail {
        wave,
        events: if left == 1 {
            t.events.push(generated_for(rules, cell, member(wave.domains[cell])))
        } else {
            t.events
        },
        dead: if left == 0 {
            Some(cell)
        } else {
            t.dead
        },
    }
}

/// The trail after one entry of the flight's list: the variant at the
/// flight's position has the removal counted off in the neighbour of the
/// flight's cell, and leaves its domain there if its counter comes to
/// nothing while it is in the domain.
pub open spec fn entry_trail(rules: Rules, grid: GridDefinition, t: Trail) -> Trail {
    let f = t.wave.flight->0;
    let direction = Direction::spec_from_index(f.direction);
    let cell = grid.neighbor(f.cell, direction)->0;
    let variant = rules.support(f.variant, direction)[f.position] as int;
    let wave = after_decrement(t.wave, cell, variant, direction);
    let counted = Trail { wave, events: t.events, dead: t.dead };
    if wave.counters[cell][variant][direction.spec_index()] == 0 && wave.domains[cell][variant] {
        ban_trail(rules, counted, cell, variant)
    } else {
        counted
    }
}

/// The trail after the rest of the flight's list, from the flight's
/// position on; it stops where a cell dies.
pub open spec fn list_trail(rules: Rules, grid: GridDefinition, t: Trail) -> Trail
    decreases
        rules.support(
            t.wave.flight->0.variant,
            Direction::spec_from_index(t.wave.flight->0.direction),
        ).len() - t.wave.flight->0.position,
{
    let f = t.wave.flight->0;
    let list = rules.support(f.variant, Direction::spec_from_index(f.direction));
    if t.dead is Some || t.wave.flight is None || f.position < 0 || f.position >= list.len() {
        t
    } else {
        list_trail(rules, grid, entry_trail(rules, grid, t))
    }
}

/// The trail with the flight at the start of the list of `direction`.
pub open spec fn at_direction(t: Trail, direction: int) -> Trail {
    Trail { wave: with_progress(t.wave, direction, 0), events: t.events, dead: t.dead }
}

/// The trail after the rest of the flight, from the flight's direction
/// on: for each direction in which the flight's cell has a neighbour, the
/// list of the direction; it stops where a cell dies.
pub open spec fn directions_trail(rules: Rules, grid: GridDefinition, t: Trail) -> Trail
    decreases rules.faces() - t.wave.flight->0.direction,
{
    let f = t.wave.flight->0;
    if t.dead is Some || t.wave.flight is None || f.direction < 0 || f.direction >= rules.faces() {
        t
    } else {
        let through = if grid.neighbor(f.cell, Direction::spec_from_index(f.direction)) is None {
            t
        } else {
            list_trail(rules, grid, t)
        };
        if through.dead is Some {
            through
        } else {
            directions_trail(rules, grid, at_direction(through, f.direction + 1))
        }
    }
}

/// The trail after the oldest removal that waits was propagated.
pub open spec fn round_trail(rules: Rules, grid: GridDefinition, t: Trail) -> Trail {
    let flown = directions_trail(
        rules,
        grid,
        Trail { wave: after_pop(t.wave), events: t.events, dead: t.dead },
    );
    if flown.dead is Some {
        flown
    } else {
        Trail { wave: after_landing(flown.wave), events: flown.events, dead: flown.dead }
    }
}

/// The trail after at most `rounds` removals were propagated, oldest
/// first; it stops where a cell dies or no removal waits.
pub open spec fn drain_trail(rules: Rules, grid: GridDefinition, t: Trail, rounds: nat) -> Trail
    decreases rounds,
{
    if rounds == 0 || settled(t) {
        t
    } else {
        drain_trail(rules, grid, round_trail(rules, grid, t), (rounds - 1) as nat)
    }
}

/// One more round propagates one more removal, if the propagation has not
/// come to its end.
pub proof fn lemma_drain_round(rules: Rules, grid: GridDefinition, t: Trail, rounds: nat)
    ensures
        drain_trail(rules, grid, t, rounds + 1) == if settled(
            drain_trail(rules, grid, t, rounds),
        ) {
            drain_trail(rules, grid, t, rounds)
        } else {
            round_trail(rules, grid, drain_trail(rules, grid, t, rounds))
        },
    decreases rounds,
{
    if settled(t) {
        assert(drain_trail(rules, grid, t, rounds + 1) == t);
        assert(drain_trail(rules, grid, t, rounds) == t);
    } else if rounds == 0 {
        let next = round_trail(rules, grid, t);
        assert(drain_trail(rules, grid, t, 1) == drain_trail(rules, grid, next, 0));
        assert(drain_trail(rules, grid, next, 0) == next);
        assert(drain_trail(rules, grid, t, 0) == t);
    } else {
        let next = round_trail(rules, grid, t);
        lemma_drain_round(rules, grid, next, (rounds - 1) as nat);
        assert(drain_trail(rules, grid, t, rounds + 1) == drain_trail(rules, grid, next, rounds));
        assert(drain_trail(rules, grid, t, rounds) == drain_trail(
            rules,
            grid,
            next,
            (rounds - 1) as nat,
        ));
    }
}

/// Where a propagation comes to its end does not depend on the number of
/// rounds that it is given, once they are enough.
pub proof fn lemma_drain_unique(
    rules: Rules,
    grid: GridDefinition,
    t: Trail,
    rounds: nat,
    other: nat,
)
    requires
        settled(drain_trail(rules, grid, t, rounds)),
        settled(drain_trail(rules, grid, t, other)),
    ensures
        drain_trail(rules, grid, t, rounds) == drain_trail(rules, grid, t, other),
    decreases rounds,
{
    if settled(t) {
        assert(drain_trail(rules, grid, t, rounds) == t);
        assert(drain_trail(rules, grid, t, other) == t);
    } else {
        assert(rounds > 0 && other > 0) by {
            assert(drain_trail(rules, grid, t, 0) == t);
        }
        let next = round_trail(rules, grid, t);
        assert(drain_trail(rules, grid, t, rounds) == drain_trail(
            rules,
            grid,
            next,
            (rounds - 1) as nat,
        ));
        assert(drain_trail(rules, grid, t, other) == drain_trail(
            rules,
            grid,
            next,
            (other - 1) as nat,
        ));
        lemma_drain_unique(rules, grid, next, (rounds - 1) as nat, (other - 1) as nat);
    }
}

} // verus!
