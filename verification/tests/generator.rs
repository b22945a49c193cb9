use ghx_proc_gen::generator::builder::GeneratorBuilder;
use ghx_proc_gen::generator::builder::GeneratorBuilderError;
use ghx_proc_gen::generator::builder::DEFAULT_RETRY_COUNT;
use ghx_proc_gen::generator::node::SocketsCartesian2D;
use ghx_proc_gen::generator::node::SocketsCartesian3D;
use ghx_proc_gen::generator::node::WEIGHT_UNIT;
use ghx_proc_gen::generator::observer::GenerationStatus;
use ghx_proc_gen::generator::observer::GenerationUpdate;
use ghx_proc_gen::generator::observer::GeneratorError;
use ghx_proc_gen::generator::observer::ModelSelectionHeuristic;
use ghx_proc_gen::generator::observer::NodeSelectionHeuristic;
use ghx_proc_gen::generator::rng::RngMode;
use ghx_proc_gen::generator::rules::Rules;
use ghx_proc_gen::generator::rules::RulesCartesian2D;
use ghx_proc_gen::generator::rules::RulesCartesian3D;
use ghx_proc_gen::generator::socket::Socket;
use ghx_proc_gen::generator::socket::SocketCollection;
use ghx_proc_gen::generator::Generator;
use ghx_proc_gen::grid::GridDefinition;

fn beach_rules() -> Rules {
    let mut sockets = SocketCollection::new();
    let s: Vec<Socket> = (0..5).map(|_| sockets.create()).collect();
    for i in 0..5 {
        sockets.add_connection(s[i], vec![s[i]]);
        if i + 1 < 5 {
            sockets.add_connection(s[i], vec![s[i + 1]]);
        }
    }
    let models = s.iter().map(|socket| SocketsCartesian2D::Mono(*socket).new_model()).collect();
    RulesCartesian2D::new(models, sockets).unwrap().rules
}

fn alternating_rules() -> Rules {
    let mut sockets = SocketCollection::new();
    let white = sockets.create();
    let black = sockets.create();
    sockets.add_connection(white, vec![black]);
    let models = vec![
        SocketsCartesian2D::Mono(white).new_model(),
        SocketsCartesian2D::Mono(black).new_model(),
    ];
    RulesCartesian2D::new(models, sockets).unwrap().rules
}

fn weighted_pair_rules(first: u32, second: u32) -> Rules {
    let mut sockets = SocketCollection::new();
    let any = sockets.create();
    sockets.add_connection(any, vec![any]);
    let models = vec![
        SocketsCartesian2D::Mono(any).new_model().with_weight(first),
        SocketsCartesian2D::Mono(any).new_model().with_weight(second),
    ];
    RulesCartesian2D::new(models, sockets).unwrap().rules
}

fn seeded(rules: Rules, grid: GridDefinition, seed: u64) -> Generator {
    GeneratorBuilder::new()
        .with_rules(rules)
        .with_grid(grid)
        .with_rng(RngMode::Seeded(seed))
        .build()
        .unwrap()
}

fn variants_of(generator: &Generator) -> Vec<usize> {
    (0..generator.grid().total_size())
        .map(|cell| match generator.node(cell) {
            Some((variant, node)) => {
                assert_eq!(node.node_index, cell);
                assert_eq!(
                    node.model_instance,
                    generator.rules().model(variant).to_instance()
                );
                variant
            }
            None => panic!("the cell {} is not fixed", cell),
        })
        .collect()
}

fn check_local_consistency(generator: &Generator) {
    let variants = variants_of(generator);
    let grid = generator.grid();
    let rules = generator.rules();
    for cell in 0..grid.total_size() {
        for direction in rules.directions() {
            if let Some(next) = grid.get_next_index(cell, direction) {
                assert!(rules
                    .supported_models(variants[cell], direction)
                    .contains(&variants[next]));
            }
        }
    }
}

fn check_faithful_log(generator: &Generator) {
    let log = generator.event_log();
    let start = log
        .iter()
        .rposition(|event| matches!(event, GenerationUpdate::Reinitializing(_)))
        .map(|at| at + 1)
        .unwrap_or(0);
    let cells = generator.grid().total_size();
    let mut told = vec![0usize; cells];
    for event in log[start..].iter() {
        match event {
            GenerationUpdate::Generated { node, variant_index } => {
                told[node.node_index] += 1;
                assert!(generator.is_possible(node.node_index, *variant_index));
                assert_eq!(generator.possible_count(node.node_index), 1);
            }
            other => panic!("unexpected event {:?}", other),
        }
    }
    assert!(told.iter().all(|times| *times == 1));
}

#[test]
fn a_beach_of_five_cells_is_generated_without_contradiction() {
    let grid = GridDefinition::new_cartesian_2d(5, 1, false);
    let mut generator = seeded(beach_rules(), grid, 0);
    let info = generator.generate().unwrap();
    assert_eq!(info.try_count, 1);
    assert_eq!(generator.retry_count(), 0);
    assert_eq!(generator.status(), Ok(GenerationStatus::Done));
    let variants = variants_of(&generator);
    assert_eq!(variants.len(), 5);
    for pair in variants.windows(2) {
        let apart = if pair[0] > pair[1] { pair[0] - pair[1] } else { pair[1] - pair[0] };
        assert!(apart <= 1);
    }
    check_local_consistency(&generator);
    check_faithful_log(&generator);
    assert!(generator
        .event_log()
        .iter()
        .all(|event| matches!(event, GenerationUpdate::Generated { .. })));
}

#[test]
fn a_beach_is_generated_for_every_seed_and_heuristic() {
    for seed in 0..40u64 {
        for node_heuristic in
            [NodeSelectionHeuristic::MinimumRemainingValue, NodeSelectionHeuristic::Random]
        {
            for model_heuristic in
                [ModelSelectionHeuristic::WeightedProbability, ModelSelectionHeuristic::Uniform]
            {
                let mut generator = GeneratorBuilder::new()
                    .with_rules(beach_rules())
                    .with_grid(GridDefinition::new_cartesian_2d(6, 4, false))
                    .with_rng(RngMode::Seeded(seed))
                    .with_node_heuristic(node_heuristic)
                    .with_model_heuristic(model_heuristic)
                    .with_max_retry_count(50)
                    .build()
                    .unwrap();
                let info = generator.generate().unwrap();
                assert_eq!(info.try_count, generator.retry_count() + 1);
                check_local_consistency(&generator);
                check_faithful_log(&generator);
            }
        }
    }
}

#[test]
fn a_checkerboard_alternates() {
    let mut seen_white_first = false;
    let mut seen_black_first = false;
    for seed in 0..20u64 {
        let grid = GridDefinition::new_cartesian_2d(4, 4, false);
        let mut generator = seeded(alternating_rules(), grid, seed);
        let mut observations = 0;
        loop {
            match generator.step().unwrap() {
                GenerationStatus::Done => break,
                GenerationStatus::Ongoing => observations += 1,
            }
            assert!(observations <= 16);
        }
        assert_eq!(generator.retry_count(), 0);
        let variants = variants_of(&generator);
        for y in 0..4 {
            for x in 0..4 {
                assert_eq!(variants[x + 4 * y], (variants[0] + x + y) % 2);
            }
        }
        if variants[0] == 0 {
            seen_white_first = true;
        } else {
            seen_black_first = true;
        }
        check_local_consistency(&generator);
        check_faithful_log(&generator);
    }
    assert!(seen_white_first || seen_black_first);
}

#[test]
fn one_observation_settles_a_checkerboard() {
    let grid = GridDefinition::new_cartesian_2d(4, 4, false);
    let mut generator = seeded(alternating_rules(), grid, 3);
    let first = generator.step().unwrap();
    assert_eq!(first, GenerationStatus::Done);
    assert_eq!(generator.event_log().len(), 16);
    assert_eq!(generator.step(), Ok(GenerationStatus::Done));
    assert_eq!(generator.event_log().len(), 16);
}

fn directed_colour_rules() -> Rules {
    // to the right of red no green, of green no blue, of blue no red
    let mut sockets = SocketCollection::new();
    let right: Vec<Socket> = (0..3).map(|_| sockets.create()).collect();
    let left: Vec<Socket> = (0..3).map(|_| sockets.create()).collect();
    let any = sockets.create();
    sockets.add_connection(any, vec![any]);
    for from in 0..3 {
        for to in 0..3 {
            if to != (from + 1) % 3 {
                sockets.add_connection(right[from], vec![left[to]]);
            }
        }
    }
    let models = (0..3)
        .map(|colour| {
            SocketsCartesian2D::Simple {
                x_pos: right[colour],
                x_neg: left[colour],
                y_pos: any,
                y_neg: any,
            }
            .new_model()
        })
        .collect();
    RulesCartesian2D::new(models, sockets).unwrap().rules
}

#[test]
fn forbidden_pairs_never_stand_side_by_side() {
    for seed in 0..30u64 {
        let grid = GridDefinition::new_cartesian_2d(3, 1, false);
        let mut generator = GeneratorBuilder::new()
            .with_rules(directed_colour_rules())
            .with_grid(grid)
            .with_rng(RngMode::Seeded(seed))
            .with_max_retry_count(0)
            .build()
            .unwrap();
        // on a line of cells propagation leaves no dead end: no retry is needed
        let info = generator.generate().unwrap();
        assert_eq!(info.try_count, 1);
        let variants = variants_of(&generator);
        for pair in variants.windows(2) {
            assert_ne!(pair[1], (pair[0] + 1) % 3);
        }
        check_local_consistency(&generator);
    }
}

#[test]
fn a_loop_of_four_cells_alternates() {
    for seed in 0..20u64 {
        let grid = GridDefinition::new_cartesian_2d(4, 1, false).with_loops(true, false, false);
        let mut generator = seeded(alternating_rules(), grid, seed);
        let info = generator.generate().unwrap();
        assert_eq!(info.try_count, 1);
        let variants = variants_of(&generator);
        assert!(variants == vec![0, 1, 0, 1] || variants == vec![1, 0, 1, 0]);
        check_local_consistency(&generator);
    }
}

#[test]
fn an_odd_loop_fails_every_retry() {
    for seed in 0..10u64 {
        let grid = GridDefinition::new_cartesian_2d(3, 1, false).with_loops(true, false, false);
        let mut generator = GeneratorBuilder::new()
            .with_rules(alternating_rules())
            .with_grid(grid)
            .with_rng(RngMode::Seeded(seed))
            .with_max_retry_count(3)
            .build()
            .unwrap();
        let error = generator.generate().unwrap_err();
        assert!(error.node_index < 3);
        assert_eq!(generator.retry_count(), 3);
        assert_eq!(generator.status(), Err(error));
        let log = generator.event_log();
        let restarts: Vec<u32> = log
            .iter()
            .filter_map(|event| match event {
                GenerationUpdate::Reinitializing(count) => Some(*count),
                _ => None,
            })
            .collect();
        assert_eq!(restarts, vec![1, 2, 3]);
        assert_eq!(log.last(), Some(&GenerationUpdate::Failed(error.node_index)));
        // a failed generator says so again and stays as it is
        let events = log.len();
        assert_eq!(generator.step(), Err(error));
        assert_eq!(generator.generate().unwrap_err(), error);
        assert_eq!(generator.event_log().len(), events);
    }
}

#[test]
fn without_retries_the_first_contradiction_fails() {
    let grid = GridDefinition::new_cartesian_2d(3, 1, false).with_loops(true, false, false);
    let mut generator = GeneratorBuilder::new()
        .with_rules(alternating_rules())
        .with_grid(grid)
        .with_rng(RngMode::Seeded(5))
        .with_max_retry_count(0)
        .build()
        .unwrap();
    let result = generator.step();
    let error = result.unwrap_err();
    assert_eq!(generator.retry_count(), 0);
    assert_eq!(generator.possible_count(error.node_index), 0);
    assert!(generator
        .event_log()
        .iter()
        .all(|event| !matches!(event, GenerationUpdate::Reinitializing(_))));
    assert_eq!(generator.status(), Err(GeneratorError { node_index: error.node_index }));
}

#[test]
fn a_step_that_meets_a_contradiction_starts_anew() {
    let grid = GridDefinition::new_cartesian_2d(3, 1, false).with_loops(true, false, false);
    let mut generator = seeded(alternating_rules(), grid, 1);
    assert_eq!(generator.generation_epoch(), 0);
    assert_eq!(generator.step(), Ok(GenerationStatus::Ongoing));
    assert_eq!(generator.retry_count(), 1);
    assert_eq!(generator.generation_epoch(), 1);
    assert_eq!(generator.event_log().last(), Some(&GenerationUpdate::Reinitializing(1)));
    for cell in 0..3 {
        assert_eq!(generator.possible_count(cell), 2);
    }
}

#[test]
fn the_same_seed_gives_the_same_events() {
    for seed in [0u64, 1, 2, 77, 123456789] {
        let mut logs = Vec::new();
        for _ in 0..2 {
            let mut generator = GeneratorBuilder::new()
                .with_rules(beach_rules())
                .with_grid(GridDefinition::new_cartesian_2d(7, 5, true))
                .with_rng(RngMode::Seeded(seed))
                .with_max_retry_count(100)
                .build()
                .unwrap();
            assert_eq!(generator.seed(), seed);
            let result = generator.generate();
            logs.push((result, generator.event_log().clone()));
        }
        assert_eq!(logs[0], logs[1]);
    }
}

#[test]
fn other_seeds_give_other_grids() {
    let mut grids = Vec::new();
    for seed in 0..10u64 {
        let mut generator =
            seeded(beach_rules(), GridDefinition::new_cartesian_2d(6, 6, false), seed);
        generator.generate().unwrap();
        grids.push(variants_of(&generator));
    }
    assert!(grids.iter().any(|grid| *grid != grids[0]));
}

#[test]
fn a_grid_of_three_dimensions_is_generated() {
    let mut sockets = SocketCollection::new();
    let ground = sockets.create();
    let air = sockets.create();
    let up = sockets.create();
    let down = sockets.create();
    sockets
        .add_connection(ground, vec![ground])
        .add_connection(air, vec![air, ground])
        .add_connection(up, vec![down]);
    let models = vec![
        SocketsCartesian3D::Simple {
            x_pos: ground,
            x_neg: ground,
            z_pos: ground,
            z_neg: ground,
            y_pos: up,
            y_neg: down,
        }
        .new_model(),
        SocketsCartesian3D::Simple {
            x_pos: air,
            x_neg: air,
            z_pos: air,
            z_neg: air,
            y_pos: up,
            y_neg: down,
        }
        .new_model()
        .with_weight(3 * WEIGHT_UNIT),
    ];
    let rules = RulesCartesian3D::new(models, sockets).unwrap().rules;
    let grid = GridDefinition::new_cartesian_3d(4, 3, 4, false);
    let mut generator = GeneratorBuilder::new()
        .with_rules(rules)
        .with_grid(grid)
        .with_rng(RngMode::Seeded(11))
        .build()
        .unwrap();
    generator.generate().unwrap();
    assert_eq!(variants_of(&generator).len(), 48);
    check_local_consistency(&generator);
    check_faithful_log(&generator);
}

#[test]
fn a_single_variant_is_told_of_at_once() {
    let mut sockets = SocketCollection::new();
    let any = sockets.create();
    sockets.add_connection(any, vec![any]);
    let models = vec![SocketsCartesian2D::Mono(any).new_model()];
    let rules = RulesCartesian2D::new(models, sockets).unwrap().rules;
    let mut generator = seeded(rules, GridDefinition::new_cartesian_2d(3, 2, false), 9);
    assert_eq!(generator.event_log().len(), 6);
    check_faithful_log(&generator);
    assert_eq!(generator.step(), Ok(GenerationStatus::Done));
    assert_eq!(generator.generate().unwrap().try_count, 1);
    assert_eq!(variants_of(&generator), vec![0; 6]);
}

#[test]
fn a_grid_without_cells_is_done_at_once() {
    let mut generator = seeded(beach_rules(), GridDefinition::new_cartesian_2d(0, 3, false), 1);
    assert_eq!(generator.status(), Ok(GenerationStatus::Ongoing));
    assert_eq!(generator.step(), Ok(GenerationStatus::Done));
    assert!(generator.event_log().is_empty());
}

#[test]
fn a_reset_starts_the_generation_anew() {
    let grid = GridDefinition::new_cartesian_2d(5, 1, false);
    let mut generator = seeded(beach_rules(), grid, 4);
    generator.generate().unwrap();
    let first = variants_of(&generator);
    let events = generator.event_log().len();
    generator.reset();
    assert_eq!(generator.status(), Ok(GenerationStatus::Ongoing));
    assert_eq!(generator.retry_count(), 0);
    assert_eq!(generator.generation_epoch(), 1);
    assert_eq!(generator.event_log().len(), events + 1);
    assert_eq!(generator.event_log()[events], GenerationUpdate::Reinitializing(0));
    for cell in 0..5 {
        assert_eq!(generator.possible_count(cell), 5);
    }
    generator.generate().unwrap();
    check_local_consistency(&generator);
    check_faithful_log(&generator);
    assert_eq!(first.len(), variants_of(&generator).len());
}

#[test]
fn a_failed_generator_can_be_reset() {
    let grid = GridDefinition::new_cartesian_2d(3, 1, false).with_loops(true, false, false);
    let mut generator = GeneratorBuilder::new()
        .with_rules(alternating_rules())
        .with_grid(grid)
        .with_rng(RngMode::Seeded(2))
        .with_max_retry_count(1)
        .build()
        .unwrap();
    assert!(generator.generate().is_err());
    generator.reset();
    assert_eq!(generator.status(), Ok(GenerationStatus::Ongoing));
    assert_eq!(generator.retry_count(), 0);
    assert!(generator.generate().is_err());
    assert_eq!(generator.retry_count(), 1);
}

#[test]
fn a_builder_needs_rules_and_a_grid() {
    let none = GeneratorBuilder::new().build();
    assert!(matches!(none, Err(GeneratorBuilderError::MissingRules)));
    let no_rules =
        GeneratorBuilder::new().with_grid(GridDefinition::new_cartesian_2d(2, 2, false)).build();
    assert!(matches!(no_rules, Err(GeneratorBuilderError::MissingRules)));
    let no_grid = GeneratorBuilder::new().with_rules(beach_rules()).build();
    assert!(matches!(no_grid, Err(GeneratorBuilderError::MissingGrid)));
}

#[test]
fn rules_and_grid_have_to_be_of_one_coordinate_system() {
    let built = GeneratorBuilder::new()
        .with_rules(beach_rules())
        .with_grid(GridDefinition::new_cartesian_3d(2, 2, 2, false))
        .build();
    assert!(matches!(built, Err(GeneratorBuilderError::CoordinateSystemMismatch)));
}

#[test]
fn a_builder_has_defaults() {
    let generator = GeneratorBuilder::new()
        .with_rules(beach_rules())
        .with_grid(GridDefinition::new_cartesian_2d(2, 2, false))
        .build()
        .unwrap();
    assert_eq!(generator.max_retry_count(), DEFAULT_RETRY_COUNT);
    assert_eq!(DEFAULT_RETRY_COUNT, 10);
    assert_eq!(generator.retry_count(), 0);
    assert_eq!(generator.grid().total_size(), 4);
    assert_eq!(generator.rules().models_count(), 5);
}

#[test]
fn a_drawn_seed_is_recorded() {
    let mut seeds = Vec::new();
    for _ in 0..4 {
        let mut generator = GeneratorBuilder::new()
            .with_rules(beach_rules())
            .with_grid(GridDefinition::new_cartesian_2d(4, 4, false))
            .with_rng(RngMode::RandomSeed)
            .build()
            .unwrap();
        let seed = generator.seed();
        generator.generate().unwrap();
        assert_eq!(generator.seed(), seed);
        let mut again = seeded(beach_rules(), GridDefinition::new_cartesian_2d(4, 4, false), seed);
        again.generate().unwrap();
        assert_eq!(again.event_log(), generator.event_log());
        seeds.push(seed);
    }
    assert!(seeds.iter().any(|seed| *seed != seeds[0]));
}

fn count_first_variant(first: u32, second: u32) -> usize {
    let mut count = 0;
    for seed in 1..=300u64 {
        let mut generator = seeded(
            weighted_pair_rules(first, second),
            GridDefinition::new_cartesian_2d(1, 1, false),
            seed,
        );
        generator.generate().unwrap();
        if variants_of(&generator)[0] == 0 {
            count += 1;
        }
    }
    count
}

#[test]
fn a_heavier_variant_is_chosen_no_less_often() {
    let even = count_first_variant(WEIGHT_UNIT, WEIGHT_UNIT);
    let doubled = count_first_variant(2 * WEIGHT_UNIT, WEIGHT_UNIT);
    assert!(doubled >= even);
    assert!(even > 100 && even < 200);
    assert!(doubled > 150);
}

#[test]
fn a_variant_without_weight_is_not_chosen_by_weight() {
    for seed in 0..50u64 {
        let mut generator = seeded(
            weighted_pair_rules(0, 5),
            GridDefinition::new_cartesian_2d(2, 2, false),
            seed,
        );
        generator.generate().unwrap();
        assert_eq!(variants_of(&generator), vec![1; 4]);
    }
}

#[test]
fn variants_without_any_weight_are_chosen_evenly() {
    let mut first = 0;
    for seed in 0..100u64 {
        let mut generator = seeded(
            weighted_pair_rules(0, 0),
            GridDefinition::new_cartesian_2d(1, 1, false),
            seed,
        );
        generator.generate().unwrap();
        if variants_of(&generator)[0] == 0 {
            first += 1;
        }
    }
    assert!(first > 20 && first < 80);
}

#[test]
fn a_step_gives_the_nodes_that_it_fixed() {
    let grid = GridDefinition::new_cartesian_2d(4, 4, false);
    let mut generator = seeded(alternating_rules(), grid, 8);
    let (status, nodes) = generator.select_and_propagate_collected().unwrap();
    assert_eq!(status, GenerationStatus::Done);
    assert_eq!(nodes.len(), 16);
    let told: Vec<_> = generator
        .event_log()
        .iter()
        .filter_map(|event| match event {
            GenerationUpdate::Generated { node, .. } => Some(*node),
            _ => None,
        })
        .collect();
    assert_eq!(nodes, told);
    let (again, none) = generator.select_and_propagate_collected().unwrap();
    assert_eq!(again, GenerationStatus::Done);
    assert!(none.is_empty());
}
