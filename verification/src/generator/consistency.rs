use crate::generator::count::count_where;
use crate::generator::count::lemma_count_zero;
use crate::generator::count::lemma_sum_remove;
use crate::generator::count::lemma_sum_same;
use crate::generator::rules::Rules;
use crate::grid::direction::lemma_opposite_involution;
use crate::grid::direction::Direction;
use crate::grid::lemma_neighbor_mutual;
use crate::grid::GridDefinition;
use vstd::prelude::*;

verus! {

/// The removal that is being propagated, and how far: the directions
/// before `direction` are done, and of the list of `direction` the entries
/// before `position`.
pub struct Flight {
    pub cell: int,
    pub variant: int,
    pub direction: int,
    pub position: int,
}

/// What the solver holds while it propagates: for each cell its domain,
/// the removals that wait, for each cell, variant and direction the support
/// counter, and the removal that is being propagated.
pub struct Wave {
    pub domains: Seq<Seq<bool>>,
    pub pending: Seq<(usize, usize)>,
    pub counters: Seq<Seq<Seq<usize>>>,
    pub flight: Option<Flight>,
}

/// Whether `family` gives each cell of the grid a domain over the variants.
pub open spec fn is_family(rules: Rules, grid: GridDefinition, family: Seq<Seq<bool>>) -> bool {
    &&& family.len() == grid.spec_total_size()
    &&& forall|c: int|
        0 <= c < family.len() ==> (#[trigger] family[c]).len() == rules.variants().len()
}

/// Whether every variant that `family` allows in a cell is allowed by
/// `other` too.
pub open spec fn within(family: Seq<Seq<bool>>, other: Seq<Seq<bool>>) -> bool {
    forall|c: int, v: int|
        0 <= c < family.len() && 0 <= v < family[c].len() && #[trigger] family[c][v]
            ==> other[c][v]
}

/// Whether the domain `domain` holds a variant that `variant` accepts on
/// the side `side`.
pub open spec fn backed(rules: Rules, domain: Seq<bool>, variant: int, side: Direction) -> bool {
    exists|u: int|
        0 <= u < domain.len() && #[trigger] domain[u] && rules.support(variant, side).contains(
            u as usize,
        )
}

/// Arc consistency: each variant of each cell has, on every side where the
/// cell has a neighbour, a variant in the neighbour's domain that it
/// accepts. A variant that accepts nothing on a side is not held to this
/// on that side.
pub open spec fn arc_consistent(rules: Rules, grid: GridDefinition, family: Seq<Seq<bool>>) -> bool {
    forall|c: int, v: int, side: Direction|
        0 <= c < family.len() && 0 <= v < rules.variants().len() && rules.system().has(side)
            && family[c][v] && grid.neighbor(c, side) is Some ==> #[trigger] backed(
            rules,
            family[grid.neighbor(c, side)->0],
            v,
            side,
        ) || rules.support(v, side).len() == 0
}

/// Whether `variant` is in the greatest arc-consistent family within
/// `start`, in the cell `cell`.
pub open spec fn in_closure(
    rules: Rules,
    grid: GridDefinition,
    start: Seq<Seq<bool>>,
    cell: int,
    variant: int,
) -> bool {
    exists|family: Seq<Seq<bool>>|
        #![trigger arc_consistent(rules, grid, family)]
        is_family(rules, grid, family) && arc_consistent(rules, grid, family) && within(
            family,
            start,
        ) && family[cell][variant]
}

/// Whether every arc-consistent family within `start` is within `domains`.
pub open spec fn keeps_closure(
    rules: Rules,
    grid: GridDefinition,
    start: Seq<Seq<bool>>,
    domains: Seq<Seq<bool>>,
) -> bool {
    forall|family: Seq<Seq<bool>>|
        #![trigger arc_consistent(rules, grid, family)]
        is_family(rules, grid, family) && arc_consistent(rules, grid, family) && within(
            family,
            start,
        ) ==> within(family, domains)
}

/// The counter of `variant` in `cell` for the side `side`. It is kept
/// under the direction opposite to the side.
pub open spec fn counter(w: Wave, cell: int, variant: int, side: Direction) -> int {
    w.counters[cell][variant][side.spec_opposite().spec_index()] as int
}

/// Whether the removal in flight is still to be counted off the counter
/// that `variant` keeps for the side opposite to `direction`: `u` in the
/// cell `n` is the removal in flight, and the propagation has not come to
/// `variant` in the list of `u` and `direction` yet.
pub open spec fn owed(
    rules: Rules,
    flight: Option<Flight>,
    n: int,
    u: int,
    direction: Direction,
    variant: int,
) -> bool {
    match flight {
        Some(f) => n == f.cell && u == f.variant && (direction.spec_index() > f.direction || (
        direction.spec_index() == f.direction && exists|m: int|
            f.position <= m < rules.support(u, direction).len() && #[trigger] rules.support(
                u,
                direction,
            )[m] == variant)),
        None => false,
    }
}

/// Whether the variant `u` of the cell `n` backs `variant` on the side
/// `side`, as the counters see it: `variant` accepts `u` there, and `u` is
/// in the domain of `n`, or its removal waits, or is in flight and owed.
pub open spec fn backs(rules: Rules, w: Wave, n: int, side: Direction, variant: int, u: int) -> bool {
    rules.support(variant, side).contains(u as usize) && (w.domains[n][u] || w.pending.contains(
        (n as usize, u as usize),
    ) || owed(rules, w.flight, n, u, side.spec_opposite(), variant))
}

/// The variants of the cell `n` that back `variant` on the side `side`.
pub open spec fn backers(rules: Rules, w: Wave, n: int, side: Direction, variant: int) -> spec_fn(
    int,
) -> bool {
    |u: int| backs(rules, w, n, side, variant, u)
}

/// Whether the wave has the shape of the grid and the rules, the removals
/// that wait are of variants that left their domain and wait once, and so
/// for the removal in flight.
pub open spec fn shaped(rules: Rules, grid: GridDefinition, w: Wave) -> bool {
    &&& grid.spec_total_size() <= usize::MAX
    &&& is_family(rules, grid, w.domains)
    &&& w.counters.len() == grid.spec_total_size()
    &&& forall|c: int|
        0 <= c < w.counters.len() ==> (#[trigger] w.counters[c]).len() == rules.variants().len()
    &&& forall|c: int, v: int|
        0 <= c < w.counters.len() && 0 <= v < rules.variants().len() ==> (
        #[trigger] w.counters[c][v]).len() == rules.faces()
    &&& forall|i: int|
        0 <= i < w.pending.len() ==> {
            let entry = #[trigger] w.pending[i];
            &&& entry.0 < grid.spec_total_size()
            &&& entry.1 < rules.variants().len()
            &&& !w.domains[entry.0 as int][entry.1 as int]
        }
    &&& w.pending.no_duplicates()
    &&& w.flight matches Some(f) ==> {
        &&& 0 <= f.cell < grid.spec_total_size()
        &&& 0 <= f.variant < rules.variants().len()
        &&& 0 <= f.direction <= rules.faces()
        &&& 0 <= f.position
        &&& !w.domains[f.cell][f.variant]
        &&& !w.pending.contains((f.cell as usize, f.variant as usize))
    }
}

/// Whether each counter is the number of variants that back its variant on
/// its side.
pub open spec fn counters_exact(rules: Rules, grid: GridDefinition, w: Wave) -> bool {
    forall|c: int, v: int, side: Direction|
        0 <= c < grid.spec_total_size() && 0 <= v < rules.variants().len() && rules.system().has(
            side,
        ) && grid.neighbor(c, side) is Some ==> #[trigger] counter(w, c, v, side) == count_where(
            rules.variants().len(),
            backers(rules, w, grid.neighbor(c, side)->0, side, v),
        )
}

/// Whether each variant that is in a domain has a positive counter on
/// every side where its cell has a neighbour and the variant accepts
/// anything; but for the variant `but.1` of the cell `but.0`.
pub open spec fn counters_positive(rules: Rules, grid: GridDefinition, w: Wave, but: (int, int)) -> bool {
    forall|c: int, v: int, side: Direction|
        0 <= c < grid.spec_total_size() && 0 <= v < rules.variants().len() && rules.system().has(
            side,
        ) && grid.neighbor(c, side) is Some && w.domains[c][v] && (c, v) != but
            ==> #[trigger] counter(w, c, v, side) > 0 || rules.support(v, side).len() == 0
}

/// No cell and variant: with it, `counters_positive` has no exception.
pub open spec fn nowhere() -> (int, int) {
    (-1, -1)
}

/// The wave after `variant` left the domain of `cell` and its removal
/// joined those that wait.
pub open spec fn after_removal(w: Wave, cell: int, variant: int) -> Wave {
    Wave {
        domains: w.domains.update(cell, w.domains[cell].update(variant, false)),
        pending: w.pending.push((cell as usize, variant as usize)),
        counters: w.counters,
        flight: w.flight,
    }
}

/// The wave after the oldest of the removals that wait took flight.
pub open spec fn after_pop(w: Wave) -> Wave {
    Wave {
        domains: w.domains,
        pending: w.pending.drop_first(),
        counters: w.counters,
        flight: Some(
            Flight {
                cell: w.pending[0].0 as int,
                variant: w.pending[0].1 as int,
                direction: 0,
                position: 0,
            },
        ),
    }
}

/// The wave with the flight at `direction` and `position`.
pub open spec fn with_progress(w: Wave, direction: int, position: int) -> Wave {
    Wave {
        domains: w.domains,
        pending: w.pending,
        counters: w.counters,
        flight: Some(
            Flight { cell: w.flight->0.cell, variant: w.flight->0.variant, direction, position },
        ),
    }
}

/// The wave after the counter of `variant` in `cell` under `direction`
/// fell by one, and the flight moved to the next entry of its list.
pub open spec fn after_decrement(w: Wave, cell: int, variant: int, direction: Direction) -> Wave {
    let f = w.flight->0;
    Wave {
        domains: w.domains,
        pending: w.pending,
        counters: w.counters.update(
            cell,
            w.counters[cell].update(
                variant,
                w.counters[cell][variant].update(
                    direction.spec_index(),
                    (w.counters[cell][variant][direction.spec_index()] - 1) as usize,
                ),
            ),
        ),
        flight: Some(
            Flight {
                cell: f.cell,
                variant: f.variant,
                direction: f.direction,
                position: f.position + 1,
            },
        ),
    }
}

/// The wave after the flight came to its end.
pub open spec fn after_landing(w: Wave) -> Wave {
    Wave { domains: w.domains, pending: w.pending, counters: w.counters, flight: None }
}

proof fn lemma_same_backers(rules: Rules, grid: GridDefinition, w: Wave, w2: Wave)
    requires
        w2.counters == w.counters,
        forall|c: int, v: int, side: Direction, u: int|
            0 <= c < grid.spec_total_size() && 0 <= v < rules.variants().len() && 0 <= u
                < rules.variants().len() && rules.system().has(side) && grid.neighbor(c, side)
                is Some ==> #[trigger] backs(rules, w2, grid.neighbor(c, side)->0, side, v, u)
                == backs(rules, w, grid.neighbor(c, side)->0, side, v, u),
        counters_exact(rules, grid, w),
    ensures
        counters_exact(rules, grid, w2),
{
    assert forall|c: int, v: int, side: Direction|
        0 <= c < grid.spec_total_size() && 0 <= v < rules.variants().len() && rules.system().has(
            side,
        ) && grid.neighbor(c, side) is Some implies #[trigger] counter(w2, c, v, side)
        == count_where(
        rules.variants().len(),
        backers(rules, w2, grid.neighbor(c, side)->0, side, v),
    ) by {
        let n = grid.neighbor(c, side)->0;
        assert(counter(w, c, v, side) == count_where(
            rules.variants().len(),
            backers(rules, w, n, side, v),
        ));
        assert forall|u: int| 0 <= u < rules.variants().len() implies #[trigger] backers(
            rules,
            w2,
            n,
            side,
            v,
        )(u) == backers(rules, w, n, side, v)(u) by {
            assert(backs(rules, w2, n, side, v, u) == backs(rules, w, n, side, v, u));
        }
        lemma_sum_same(
            rules.variants().len(),
            backers(rules, w2, n, side, v),
            |i: int| 1nat,
            backers(rules, w, n, side, v),
            |i: int| 1nat,
        );
    }
}

/// Whether the counters are positive depends on the domains and the
/// counters alone.
pub proof fn lemma_positive_same(
    rules: Rules,
    grid: GridDefinition,
    w: Wave,
    w2: Wave,
    but: (int, int),
)
    requires
        w2.domains == w.domains,
        w2.counters == w.counters,
        counters_positive(rules, grid, w, but),
    ensures
        counters_positive(rules, grid, w2, but),
{
    assert forall|c: int, v: int, side: Direction|
        0 <= c < grid.spec_total_size() && 0 <= v < rules.variants().len() && rules.system().has(
            side,
        ) && grid.neighbor(c, side) is Some && w2.domains[c][v] && (c, v)
            != but implies #[trigger] counter(w2, c, v, side) > 0 || rules.support(v, side).len()
        == 0 by {
        assert(counter(w, c, v, side) > 0 || rules.support(v, side).len() == 0);
    }
}

/// A removal keeps the shape and the counters true: the variant that left
/// the domain waits, and is counted as before.
pub proof fn lemma_removal(rules: Rules, grid: GridDefinition, w: Wave, cell: int, variant: int)
    requires
        rules.wf(),
        shaped(rules, grid, w),
        counters_exact(rules, grid, w),
        counters_positive(rules, grid, w, (cell, variant)),
        0 <= cell < grid.spec_total_size(),
        0 <= variant < rules.variants().len(),
        w.domains[cell][variant],
    ensures
        shaped(rules, grid, after_removal(w, cell, variant)),
        counters_exact(rules, grid, after_removal(w, cell, variant)),
        counters_positive(rules, grid, after_removal(w, cell, variant), nowhere()),
        within(after_removal(w, cell, variant).domains, w.domains),
{
    let w2 = after_removal(w, cell, variant);
    let entry = (cell as usize, variant as usize);
    assert forall|p: (usize, usize)| w2.pending.contains(p) <==> (w.pending.contains(p) || p
        == entry) by {
        vstd::seq_lib::lemma_seq_contains_after_push(w.pending, entry, p);
    }
    assert(!w.pending.contains(entry)) by {
        if w.pending.contains(entry) {
            let i = choose|i: int| 0 <= i < w.pending.len() && w.pending[i] == entry;
            assert(!w.domains[w.pending[i].0 as int][w.pending[i].1 as int]);
        }
    }
    assert(w2.pending.no_duplicates()) by {
        assert forall|i: int, j: int|
            0 <= i < w2.pending.len() && 0 <= j < w2.pending.len() && i != j implies w2.pending[i]
            != w2.pending[j] by {
            if i < w.pending.len() && j < w.pending.len() {
            } else if i < w.pending.len() {
                assert(w.pending.contains(w.pending[i]));
            } else {
                assert(w.pending.contains(w.pending[j]));
            }
        }
    }
    assert forall|i: int| 0 <= i < w2.pending.len() implies {
        let e = #[trigger] w2.pending[i];
        &&& e.0 < grid.spec_total_size()
        &&& e.1 < rules.variants().len()
        &&& !w2.domains[e.0 as int][e.1 as int]
    } by {
        if i < w.pending.len() {
            let e = w.pending[i];
            assert(!w.domains[e.0 as int][e.1 as int]);
        }
    }
    assert(is_family(rules, grid, w2.domains)) by {
        assert forall|c: int| 0 <= c < w2.domains.len() implies (#[trigger] w2.domains[c]).len()
            == rules.variants().len() by {
            assert(w.domains[c].len() == rules.variants().len());
        }
    }
    assert forall|c: int, v: int, side: Direction, u: int|
        0 <= c < grid.spec_total_size() && 0 <= v < rules.variants().len() && 0 <= u
            < rules.variants().len() && rules.system().has(side) && grid.neighbor(c, side)
            is Some implies #[trigger] backs(rules, w2, grid.neighbor(c, side)->0, side, v, u)
        == backs(rules, w, grid.neighbor(c, side)->0, side, v, u) by {
        let n = grid.neighbor(c, side)->0;
        lemma_neighbor_mutual(grid, c, side);
        let p = (n as usize, u as usize);
        assert(w2.pending.contains(p) <==> (w.pending.contains(p) || p == entry));
        assert(w.domains[n].len() == rules.variants().len());
    }
    lemma_same_backers(rules, grid, w, w2);
    assert forall|c: int, v: int, side: Direction|
        0 <= c < grid.spec_total_size() && 0 <= v < rules.variants().len() && rules.system().has(
            side,
        ) && grid.neighbor(c, side) is Some && w2.domains[c][v] && (c, v)
            != nowhere() implies #[trigger] counter(w2, c, v, side) > 0 || rules.support(
        v,
        side,
    ).len() == 0 by {
        assert(w.domains[c].len() == rules.variants().len());
        assert(w.domains[c][v] && (c, v) != (cell, variant));
        assert(counter(w, c, v, side) > 0 || rules.support(v, side).len() == 0);
    }
    assert forall|c: int, v: int|
        0 <= c < w2.domains.len() && 0 <= v < w2.domains[c].len()
            && #[trigger] w2.domains[c][v] implies w.domains[c][v] by {}
}

/// When the oldest removal takes flight, the counters stay true: it is
/// owed to every counter that counted it.
pub proof fn lemma_pop(rules: Rules, grid: GridDefinition, w: Wave)
    requires
        rules.wf(),
        shaped(rules, grid, w),
        counters_exact(rules, grid, w),
        w.flight is None,
        w.pending.len() > 0,
    ensures
        shaped(rules, grid, after_pop(w)),
        counters_exact(rules, grid, after_pop(w)),
{
    let w2 = after_pop(w);
    let first = w.pending[0];
    assert forall|p: (usize, usize)| w2.pending.contains(p) <==> (w.pending.contains(p) && p
        != first) by {
        if w2.pending.contains(p) {
            let i = choose|i: int| 0 <= i < w2.pending.len() && w2.pending[i] == p;
            assert(w.pending[i + 1] == p);
        }
        if w.pending.contains(p) && p != first {
            let i = choose|i: int| 0 <= i < w.pending.len() && w.pending[i] == p;
            assert(w2.pending[i - 1] == p);
        }
    }
    assert(w2.pending.no_duplicates()) by {
        assert forall|i: int, j: int|
            0 <= i < w2.pending.len() && 0 <= j < w2.pending.len() && i != j implies w2.pending[i]
            != w2.pending[j] by {
            assert(w2.pending[i] == w.pending[i + 1]);
            assert(w2.pending[j] == w.pending[j + 1]);
        }
    }
    assert forall|i: int| 0 <= i < w2.pending.len() implies {
        let e = #[trigger] w2.pending[i];
        &&& e.0 < grid.spec_total_size()
        &&& e.1 < rules.variants().len()
        &&& !w2.domains[e.0 as int][e.1 as int]
    } by {
        assert(w2.pending[i] == w.pending[i + 1]);
    }
    assert(!w.domains[first.0 as int][first.1 as int]);
    assert forall|c: int, v: int, side: Direction, u: int|
        0 <= c < grid.spec_total_size() && 0 <= v < rules.variants().len() && 0 <= u
            < rules.variants().len() && rules.system().has(side) && grid.neighbor(c, side)
            is Some implies #[trigger] backs(rules, w2, grid.neighbor(c, side)->0, side, v, u)
        == backs(rules, w, grid.neighbor(c, side)->0, side, v, u) by {
        let n = grid.neighbor(c, side)->0;
        lemma_neighbor_mutual(grid, c, side);
        lemma_opposite_involution(side);
        let p = (n as usize, u as usize);
        assert(w2.pending.contains(p) <==> (w.pending.contains(p) && p != first));
        if rules.support(v, side).contains(u as usize) && p == first {
            assert(w.pending.contains(first)) by {
                assert(w.pending[0] == first);
            }
            let back = side.spec_opposite();
            assert(rules.system().has(back));
            assert(rules.support(u, back).contains(v as usize));
            let m = choose|m: int|
                0 <= m < rules.support(u, back).len() && rules.support(u, back)[m] == v as usize;
            assert(rules.support(u, back)[m] == v);
            assert(owed(rules, w2.flight, n, u, back, v));
        }
    }
    lemma_same_backers(rules, grid, w, w2);
}

/// The flight may pass to the next direction when the list of its
/// direction is done, or when its cell has no neighbour in the direction.
pub proof fn lemma_next_direction(rules: Rules, grid: GridDefinition, w: Wave)
    requires
        rules.wf(),
        shaped(rules, grid, w),
        counters_exact(rules, grid, w),
        w.flight is Some,
        w.flight->0.direction < rules.faces(),
        grid.neighbor(w.flight->0.cell, Direction::spec_from_index(w.flight->0.direction))
            is None || w.flight->0.position >= rules.support(
            w.flight->0.variant,
            Direction::spec_from_index(w.flight->0.direction),
        ).len(),
    ensures
        shaped(rules, grid, with_progress(w, w.flight->0.direction + 1, 0)),
        counters_exact(rules, grid, with_progress(w, w.flight->0.direction + 1, 0)),
{
    let f = w.flight->0;
    let w2 = with_progress(w, f.direction + 1, 0);
    assert forall|c: int, v: int, side: Direction, u: int|
        0 <= c < grid.spec_total_size() && 0 <= v < rules.variants().len() && 0 <= u
            < rules.variants().len() && rules.system().has(side) && grid.neighbor(c, side)
            is Some implies #[trigger] backs(rules, w2, grid.neighbor(c, side)->0, side, v, u)
        == backs(rules, w, grid.neighbor(c, side)->0, side, v, u) by {
        let n = grid.neighbor(c, side)->0;
        lemma_neighbor_mutual(grid, c, side);
        lemma_opposite_involution(side);
        let back = side.spec_opposite();
        lemma_opposite_involution(back);
        if rules.support(v, side).contains(u as usize) && n == f.cell && u == f.variant {
            assert(rules.system().has(back));
            assert(rules.support(u, back).contains(v as usize));
            let m = choose|m: int|
                0 <= m < rules.support(u, back).len() && rules.support(u, back)[m] == v as usize;
            assert(rules.support(u, back)[m] == v);
            if back.spec_index() == f.direction {
                assert(grid.neighbor(f.cell, back) == Some(c));
                assert(!owed(rules, w.flight, n, u, back, v));
                assert(!owed(rules, w2.flight, n, u, back, v));
            } else if back.spec_index() == f.direction + 1 {
                assert(owed(rules, w.flight, n, u, back, v));
                assert(owed(rules, w2.flight, n, u, back, v));
            }
        }
    }
    lemma_same_backers(rules, grid, w, w2);
}

/// The flight lands when every direction is done: nothing is owed any more.
pub proof fn lemma_landing(rules: Rules, grid: GridDefinition, w: Wave)
    requires
        rules.wf(),
        shaped(rules, grid, w),
        counters_exact(rules, grid, w),
        w.flight is Some,
        w.flight->0.direction >= rules.faces(),
    ensures
        shaped(rules, grid, after_landing(w)),
        counters_exact(rules, grid, after_landing(w)),
{
    let w2 = after_landing(w);
    assert forall|c: int, v: int, side: Direction, u: int|
        0 <= c < grid.spec_total_size() && 0 <= v < rules.variants().len() && 0 <= u
            < rules.variants().len() && rules.system().has(side) && grid.neighbor(c, side)
            is Some implies #[trigger] backs(rules, w2, grid.neighbor(c, side)->0, side, v, u)
        == backs(rules, w, grid.neighbor(c, side)->0, side, v, u) by {
        lemma_opposite_involution(side);
    }
    lemma_same_backers(rules, grid, w, w2);
}

/// One step of the flight: the variant at the flight's position in the
/// list of its direction has the removal counted off, in the neighbour of
/// the flight's cell. Its counter was positive, and the counters are true
/// again after the step.
pub proof fn lemma_decrement(rules: Rules, grid: GridDefinition, w: Wave)
    requires
        rules.wf(),
        shaped(rules, grid, w),
        counters_exact(rules, grid, w),
        counters_positive(rules, grid, w, nowhere()),
        w.flight is Some,
        w.flight->0.direction < rules.faces(),
        grid.neighbor(w.flight->0.cell, Direction::spec_from_index(w.flight->0.direction))
            is Some,
        w.flight->0.position < rules.support(
            w.flight->0.variant,
            Direction::spec_from_index(w.flight->0.direction),
        ).len(),
    ensures
        ({
            let f = w.flight->0;
            let direction = Direction::spec_from_index(f.direction);
            let cell = grid.neighbor(f.cell, direction)->0;
            let variant = rules.support(f.variant, direction)[f.position] as int;
            let w2 = after_decrement(w, cell, variant, direction);
            &&& 0 <= cell < grid.spec_total_size()
            &&& 0 <= variant < rules.variants().len()
            &&& w.counters[cell][variant][direction.spec_index()] > 0
            &&& shaped(rules, grid, w2)
            &&& counters_exact(rules, grid, w2)
            &&& counters_positive(rules, grid, w2, (cell, variant))
            &&& counter(w2, cell, variant, direction.spec_opposite()) == count_where(
                rules.variants().len(),
                backers(rules, w2, f.cell, direction.spec_opposite(), variant),
            )
            &&& rules.support(variant, direction.spec_opposite()).len() > 0
            &&& grid.neighbor(cell, direction.spec_opposite()) == Some(f.cell)
        }),
{
    let f = w.flight->0;
    let direction = Direction::spec_from_index(f.direction);
    let side = direction.spec_opposite();
    lemma_opposite_involution(direction);
    lemma_opposite_involution(side);
    assert(direction.spec_index() == f.direction);
    assert(rules.system().has(direction));
    assert(rules.system().has(side));
    let list = rules.support(f.variant, direction);
    let cell = grid.neighbor(f.cell, direction)->0;
    let variant = list[f.position] as int;
    lemma_neighbor_mutual(grid, f.cell, direction);
    assert(list.contains(list[f.position]));
    assert(rules.support(variant, side).contains(f.variant as usize));
    let w2 = after_decrement(w, cell, variant, direction);
    let count = rules.variants().len();
    // the counter that the step touches
    let before = backers(rules, w, f.cell, side, variant);
    let after = backers(rules, w2, f.cell, side, variant);
    assert(counter(w, cell, variant, side) == count_where(count, before));
    assert(before(f.variant)) by {
        assert(owed(rules, w.flight, f.cell, f.variant, direction, variant));
    }
    assert(!after(f.variant)) by {
        if owed(rules, w2.flight, f.cell, f.variant, direction, variant) {
            let m = choose|m: int| f.position + 1 <= m < list.len() && list[m] == variant;
            assert(list[m] == list[f.position]);
        }
    }
    assert forall|u: int| 0 <= u < count && u != f.variant implies #[trigger] before(u) == after(
        u,
    ) by {}
    lemma_sum_remove(count, before, after, |i: int| 1nat, f.variant);
    assert(w.counters[cell].len() == count);
    assert(w.counters[cell][variant].len() == rules.faces());
    assert(counter(w2, cell, variant, side) == counter(w, cell, variant, side) - 1);
    // the shape
    assert forall|c: int| 0 <= c < w2.counters.len() implies (#[trigger] w2.counters[c]).len()
        == count by {
        assert(w.counters[c].len() == count);
    }
    assert forall|c: int, v: int| 0 <= c < w2.counters.len() && 0 <= v < count implies (
    #[trigger] w2.counters[c][v]).len() == rules.faces() by {
        assert(w.counters[c].len() == count);
        assert(w.counters[c][v].len() == rules.faces());
    }
    // every counter
    assert forall|c: int, v: int, s: Direction|
        0 <= c < grid.spec_total_size() && 0 <= v < count && rules.system().has(s)
            && grid.neighbor(c, s) is Some implies #[trigger] counter(w2, c, v, s) == count_where(
        count,
        backers(rules, w2, grid.neighbor(c, s)->0, s, v),
    ) by {
        let n = grid.neighbor(c, s)->0;
        lemma_neighbor_mutual(grid, c, s);
        lemma_opposite_involution(s);
        assert(w.counters[c].len() == count);
        assert(w.counters[c][v].len() == rules.faces());
        if c == cell && v == variant && s == side {
        } else {
            assert(counter(w2, c, v, s) == counter(w, c, v, s));
            assert(counter(w, c, v, s) == count_where(count, backers(rules, w, n, s, v)));
            assert forall|u: int| 0 <= u < count implies #[trigger] backers(rules, w2, n, s, v)(u)
                == backers(rules, w, n, s, v)(u) by {
                let back = s.spec_opposite();
                if rules.support(v, s).contains(u as usize) && n == f.cell && u == f.variant
                    && back.spec_index() == f.direction {
                    assert(back == direction);
                    assert(s == side);
                    assert(c == cell);
                    assert(v != variant);
                    if owed(rules, w.flight, n, u, back, v) {
                        let m = choose|m: int| f.position <= m < list.len() && list[m] == v;
                        assert(m != f.position);
                        assert(owed(rules, w2.flight, n, u, back, v));
                    }
                }
            }
            lemma_sum_same(
                count,
                backers(rules, w2, n, s, v),
                |i: int| 1nat,
                backers(rules, w, n, s, v),
                |i: int| 1nat,
            );
        }
    }
    assert forall|c: int, v: int, s: Direction|
        0 <= c < grid.spec_total_size() && 0 <= v < count && rules.system().has(s)
            && grid.neighbor(c, s) is Some && w2.domains[c][v] && (c, v) != (
            cell,
            variant,
        ) implies #[trigger] counter(w2, c, v, s) > 0 || rules.support(v, s).len() == 0 by {
        assert(w.counters[c].len() == count);
        assert(w.counters[c][v].len() == rules.faces());
        assert(counter(w2, c, v, s) == counter(w, c, v, s));
        assert(counter(w, c, v, s) > 0 || rules.support(v, s).len() == 0);
    }
}

/// A variant whose counter for a side fell to nothing is in no
/// arc-consistent family within the domains, so removing it keeps every
/// such family.
pub proof fn lemma_unbacked_leaves(
    rules: Rules,
    grid: GridDefinition,
    w: Wave,
    start: Seq<Seq<bool>>,
    cell: int,
    variant: int,
    side: Direction,
)
    requires
        rules.wf(),
        shaped(rules, grid, w),
        keeps_closure(rules, grid, start, w.domains),
        0 <= cell < grid.spec_total_size(),
        0 <= variant < rules.variants().len(),
        rules.system().has(side),
        grid.neighbor(cell, side) is Some,
        rules.support(variant, side).len() > 0,
        counter(w, cell, variant, side) == count_where(
            rules.variants().len(),
            backers(rules, w, grid.neighbor(cell, side)->0, side, variant),
        ),
        counter(w, cell, variant, side) == 0,
    ensures
        keeps_closure(
            rules,
            grid,
            start,
            w.domains.update(cell, w.domains[cell].update(variant, false)),
        ),
{
    let n = grid.neighbor(cell, side)->0;
    let after = w.domains.update(cell, w.domains[cell].update(variant, false));
    lemma_neighbor_mutual(grid, cell, side);
    lemma_count_zero(rules.variants().len(), backers(rules, w, n, side, variant));
    assert forall|family: Seq<Seq<bool>>|
        #![trigger arc_consistent(rules, grid, family)]
        is_family(rules, grid, family) && arc_consistent(rules, grid, family) && within(
            family,
            start,
        ) implies within(family, after) by {
        assert(within(family, w.domains));
        assert(family[cell].len() == rules.variants().len());
        assert(family[n].len() == rules.variants().len());
        if family[cell][variant] {
            assert(backed(rules, family[n], variant, side));
            let u = choose|u: int|
                0 <= u < family[n].len() && #[trigger] family[n][u] && rules.support(
                    variant,
                    side,
                ).contains(u as usize);
            assert(w.domains[n][u]);
            assert(backers(rules, w, n, side, variant)(u));
        }
        assert forall|c: int, v: int|
            0 <= c < family.len() && 0 <= v < family[c].len()
                && #[trigger] family[c][v] implies after[c][v] by {
            assert(w.domains[c][v]);
        }
    }
}

/// When nothing waits and nothing is in flight, true and positive counters
/// mean that the domains are arc consistent.
pub proof fn lemma_settled(rules: Rules, grid: GridDefinition, w: Wave)
    requires
        rules.wf(),
        shaped(rules, grid, w),
        counters_exact(rules, grid, w),
        counters_positive(rules, grid, w, nowhere()),
        w.flight is None,
        w.pending.len() == 0,
    ensures
        arc_consistent(rules, grid, w.domains),
{
    assert forall|c: int, v: int, side: Direction|
        0 <= c < w.domains.len() && 0 <= v < rules.variants().len() && rules.system().has(side)
            && w.domains[c][v] && grid.neighbor(c, side) is Some implies #[trigger] backed(
        rules,
        w.domains[grid.neighbor(c, side)->0],
        v,
        side,
    ) || rules.support(v, side).len() == 0 by {
        let n = grid.neighbor(c, side)->0;
        lemma_neighbor_mutual(grid, c, side);
        assert(w.domains[n].len() == rules.variants().len());
        if rules.support(v, side).len() != 0 {
            assert(counter(w, c, v, side) > 0);
            let keep = backers(rules, w, n, side, v);
            lemma_count_zero(rules.variants().len(), keep);
            let u = choose|u: int| 0 <= u < rules.variants().len() && #[trigger] keep(u);
            assert(backs(rules, w, n, side, v, u));
            assert(w.domains[n][u]);
        }
    }
}

} // verus!
