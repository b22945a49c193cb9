use ghx_proc_gen::generator::domain::DomainState;
use ghx_proc_gen::generator::domain::JITTER_RANGE;
use ghx_proc_gen::generator::node::SocketsCartesian2D;
use ghx_proc_gen::generator::observer::ModelSelectionHeuristic;
use ghx_proc_gen::generator::observer::NodeSelectionHeuristic;
use ghx_proc_gen::generator::rng::Rng;
use ghx_proc_gen::generator::rules::Rules;
use ghx_proc_gen::generator::rules::RulesCartesian2D;
use ghx_proc_gen::generator::selection::select_cell;
use ghx_proc_gen::generator::selection::select_variant;
use ghx_proc_gen::generator::socket::SocketCollection;

// the numbers that a generator of random numbers draws from the seed 1
const DRAWN: [u64; 5] = [
    5180492295206395165,
    12380297144915551517,
    13389498078930870103,
    5599127315341312413,
    1036278371763004928,
];

fn five_free_variants(weights: [u32; 5]) -> Rules {
    let mut sockets = SocketCollection::new();
    let any = sockets.create();
    sockets.add_connection(any, vec![any]);
    let models = weights
        .iter()
        .map(|weight| SocketsCartesian2D::Mono(any).new_model().with_weight(*weight))
        .collect();
    RulesCartesian2D::new(models, sockets).unwrap().rules
}

fn three_cells(rules: &Rules) -> (DomainState, Rng) {
    let mut rng = Rng::new(1);
    let state = DomainState::initialize(rules, 3, &mut rng);
    (state, rng)
}

#[test]
fn a_new_state_holds_every_variant_everywhere() {
    let rules = five_free_variants([1024; 5]);
    let (state, _) = three_cells(&rules);
    assert_eq!(state.cells_count(), 3);
    for cell in 0..3 {
        assert_eq!(state.count(&rules, cell), 5);
        assert!(!state.contradicted(&rules, cell));
        assert_eq!(state.weight_sum(&rules, cell), 5 * 1024);
        for variant in 0..5 {
            assert!(state.is_possible(&rules, cell, variant));
        }
        assert_eq!(state.next_possible(&rules, cell, 0), Some(0));
        assert_eq!(state.next_possible(&rules, cell, 5), None);
    }
}

#[test]
fn the_jitter_is_drawn_cell_by_cell() {
    let rules = five_free_variants([1024; 5]);
    let (state, mut rng) = three_cells(&rules);
    // the logarithm of 5120 is 12.25 as the library takes it, that of 1024 is 10
    let entropy = 802816 - 655360;
    for cell in 0..3 {
        assert_eq!(state.entropy(&rules, cell), entropy + DRAWN[cell] % JITTER_RANGE);
    }
    assert_eq!(DRAWN[0] % JITTER_RANGE, 29);
    assert_eq!(DRAWN[2] % JITTER_RANGE, 87);
    // three numbers were drawn
    assert_eq!(rng.next_u64(), DRAWN[3]);
}

#[test]
fn removing_a_variant_lowers_the_sums_and_waits() {
    let rules = five_free_variants([1024, 2048, 512, 0, 1]);
    let (mut state, _) = three_cells(&rules);
    assert_eq!(state.weight_sum(&rules, 1), 3585);
    assert!(state.remove(&rules, 1, 1));
    assert!(!state.remove(&rules, 1, 1));
    assert!(state.remove(&rules, 1, 3));
    assert_eq!(state.count(&rules, 1), 3);
    assert_eq!(state.weight_sum(&rules, 1), 1537);
    assert!(!state.is_possible(&rules, 1, 1));
    assert!(state.is_possible(&rules, 1, 2));
    assert_eq!(state.next_possible(&rules, 1, 1), Some(2));
    assert_eq!(state.count(&rules, 0), 5);
    assert_eq!(state.weight_sum(&rules, 0), 3585);
    // the removals wait in the order in which they were made
    assert_eq!(state.pop(&rules), Some((1, 1)));
    assert_eq!(state.pop(&rules), Some((1, 3)));
    assert_eq!(state.pop(&rules), None);
}

#[test]
fn entropy_follows_the_domain() {
    let rules = five_free_variants([1024; 5]);
    let (mut state, _) = three_cells(&rules);
    state.remove(&rules, 2, 4);
    // four variants of equal weight: two bits
    assert_eq!(state.entropy(&rules, 2), 131072 + 87);
    state.remove(&rules, 2, 0);
    state.remove(&rules, 2, 1);
    // two variants: one bit
    assert_eq!(state.entropy(&rules, 2), 65536 + 87);
    state.remove(&rules, 2, 2);
    assert_eq!(state.entropy(&rules, 2), 87);
    state.remove(&rules, 2, 3);
    assert!(state.contradicted(&rules, 2));
    assert_eq!(state.count(&rules, 2), 0);
    assert_eq!(state.weight_sum(&rules, 2), 0);
    assert_eq!(state.entropy(&rules, 2), 87);
}

#[test]
fn collapsing_removes_the_other_variants_in_order() {
    let rules = five_free_variants([1024; 5]);
    let (mut state, _) = three_cells(&rules);
    state.remove(&rules, 0, 3);
    assert_eq!(state.pop(&rules), Some((0, 3)));
    state.collapse_to(&rules, 0, 2);
    assert_eq!(state.count(&rules, 0), 1);
    assert!(state.is_possible(&rules, 0, 2));
    assert_eq!(state.weight_sum(&rules, 0), 1024);
    assert_eq!(state.pop(&rules), Some((0, 0)));
    assert_eq!(state.pop(&rules), Some((0, 1)));
    assert_eq!(state.pop(&rules), Some((0, 4)));
    assert_eq!(state.pop(&rules), None);
    // collapsing to a variant that is gone leaves nothing
    state.remove(&rules, 1, 1);
    state.collapse_to(&rules, 1, 1);
    assert!(state.contradicted(&rules, 1));
}

#[test]
fn cells_of_least_entropy_are_chosen_among_at_random() {
    let rules = five_free_variants([1024; 5]);
    let (state, mut rng) = three_cells(&rules);
    // the first two cells have the same jitter: the fourth number decides
    let chosen = select_cell(&rules, &state, NodeSelectionHeuristic::MinimumRemainingValue, &mut rng);
    assert_eq!(DRAWN[3] % 2, 1);
    assert_eq!(chosen, Some(1));
    assert_eq!(rng.next_u64(), DRAWN[4]);
}

#[test]
fn a_cell_alone_with_its_entropy_is_chosen_without_a_draw() {
    let rules = five_free_variants([1024; 5]);
    let (mut state, mut rng) = three_cells(&rules);
    state.remove(&rules, 2, 4);
    let chosen = select_cell(&rules, &state, NodeSelectionHeuristic::MinimumRemainingValue, &mut rng);
    assert_eq!(chosen, Some(2));
    assert_eq!(rng.next_u64(), DRAWN[3]);
}

#[test]
fn a_cell_is_chosen_at_random_among_those_left() {
    let rules = five_free_variants([1024; 5]);
    let (mut state, mut rng) = three_cells(&rules);
    let chosen = select_cell(&rules, &state, NodeSelectionHeuristic::Random, &mut rng.clone());
    assert_eq!(DRAWN[3] % 3, 0);
    assert_eq!(chosen, Some(0));
    // with the first cell fixed, two are left: the number picks the second of them
    state.collapse_to(&rules, 0, 0);
    let chosen = select_cell(&rules, &state, NodeSelectionHeuristic::Random, &mut rng);
    assert_eq!(chosen, Some(2));
}

#[test]
fn no_cell_is_chosen_when_all_are_fixed() {
    let rules = five_free_variants([1024; 5]);
    let (mut state, mut rng) = three_cells(&rules);
    for cell in 0..3 {
        state.collapse_to(&rules, cell, cell);
    }
    for heuristic in [NodeSelectionHeuristic::MinimumRemainingValue, NodeSelectionHeuristic::Random]
    {
        assert_eq!(select_cell(&rules, &state, heuristic, &mut rng), None);
    }
    assert_eq!(rng.next_u64(), DRAWN[3]);
}

#[test]
fn a_variant_is_chosen_by_its_share_of_the_weights() {
    let rules = five_free_variants([1024; 5]);
    let (state, mut rng) = three_cells(&rules);
    // the fourth number, reduced to the sum 5120, is 413: in the share of the first variant
    assert_eq!(DRAWN[3] % 5120, 413);
    let variant =
        select_variant(&rules, &state, ModelSelectionHeuristic::WeightedProbability, 0, &mut rng);
    assert_eq!(variant, 0);
    // the fifth is 4608: in the share of the last
    let variant =
        select_variant(&rules, &state, ModelSelectionHeuristic::WeightedProbability, 0, &mut rng);
    assert_eq!(variant, 4);
}

#[test]
fn shares_follow_the_weights_of_the_variants_that_are_left() {
    let rules = five_free_variants([100, 0, 300, 13, 5000]);
    let (mut state, mut rng) = three_cells(&rules);
    state.remove(&rules, 1, 4);
    // the sum is 413, the number reduced to it is 122: past 100 and 0, within the 300 that follow
    assert_eq!(DRAWN[3] % 413, 122);
    let variant =
        select_variant(&rules, &state, ModelSelectionHeuristic::WeightedProbability, 1, &mut rng);
    assert_eq!(variant, 2);
}

#[test]
fn a_variant_is_chosen_evenly_by_its_rank() {
    let rules = five_free_variants([1, 1, 1, 1, 1000000]);
    let (mut state, mut rng) = three_cells(&rules);
    assert_eq!(DRAWN[3] % 5, 3);
    let variant = select_variant(&rules, &state, ModelSelectionHeuristic::Uniform, 0, &mut rng);
    assert_eq!(variant, 3);
    state.remove(&rules, 0, 0);
    // of the four that are left the number picks the first: the variant 1
    assert_eq!(DRAWN[4] % 4, 0);
    let variant = select_variant(&rules, &state, ModelSelectionHeuristic::Uniform, 0, &mut rng);
    assert_eq!(variant, 1);
}
