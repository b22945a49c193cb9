use ghx_proc_gen::debug_plugin::generation::generate_all;
use ghx_proc_gen::debug_plugin::generation::insert_void_nodes_to_new_generations;
use ghx_proc_gen::debug_plugin::generation::step_by_step_input_update;
use ghx_proc_gen::debug_plugin::generation::step_by_step_timed_update;
use ghx_proc_gen::debug_plugin::generation::step_generation;
use ghx_proc_gen::debug_plugin::generation::update_generation_control;
use ghx_proc_gen::debug_plugin::generation::update_generation_view;
use ghx_proc_gen::debug_plugin::generation::VoidNodes;
use ghx_proc_gen::debug_plugin::picking::picking_update_grid_cursor_position;
use ghx_proc_gen::debug_plugin::picking::GridOverCursor;
use ghx_proc_gen::debug_plugin::GenerationControl;
use ghx_proc_gen::debug_plugin::GenerationControlStatus;
use ghx_proc_gen::generator::builder::GeneratorBuilder;
use ghx_proc_gen::generator::node::GridNode;
use ghx_proc_gen::generator::node::ModelInstance;
use ghx_proc_gen::generator::node::SocketsCartesian2D;
use ghx_proc_gen::generator::observer::GenerationStatus;
use ghx_proc_gen::generator::observer::GenerationUpdate;
use ghx_proc_gen::generator::rng::RngMode;
use ghx_proc_gen::generator::rotation::NodeRotation;
use ghx_proc_gen::generator::rules::RulesCartesian2D;
use ghx_proc_gen::generator::socket::SocketCollection;
use ghx_proc_gen::generator::Generator;
use ghx_proc_gen::grid::GridDefinition;
use ghx_proc_gen::grid::GridPosition;
use std::collections::HashSet;

fn free_generator(seed: u64, retries: u32) -> Generator {
    // two models that fit everywhere
    let mut sockets = SocketCollection::new();
    let any = sockets.create();
    sockets.add_connection(any, vec![any]);
    let models =
        vec![SocketsCartesian2D::Mono(any).new_model(), SocketsCartesian2D::Mono(any).new_model()];
    let rules = RulesCartesian2D::new(models, sockets).unwrap().rules;
    GeneratorBuilder::new()
        .with_rules(rules)
        .with_grid(GridDefinition::new_cartesian_2d(4, 3, false))
        .with_rng(RngMode::Seeded(seed))
        .with_max_retry_count(retries)
        .build()
        .unwrap()
}

fn impossible_generator() -> Generator {
    let mut sockets = SocketCollection::new();
    let a = sockets.create();
    let b = sockets.create();
    sockets.add_connection(a, vec![b]);
    let models =
        vec![SocketsCartesian2D::Mono(a).new_model(), SocketsCartesian2D::Mono(b).new_model()];
    let rules = RulesCartesian2D::new(models, sockets).unwrap().rules;
    GeneratorBuilder::new()
        .with_rules(rules)
        .with_grid(GridDefinition::new_cartesian_2d(3, 1, false).with_loops(true, false, false))
        .with_rng(RngMode::Seeded(1))
        .with_max_retry_count(0)
        .build()
        .unwrap()
}

fn node(cell: usize, model: usize) -> GridNode {
    GridNode {
        node_index: cell,
        model_instance: ModelInstance { model_index: model, rotation: NodeRotation::Rot0 },
    }
}

#[test]
fn models_without_assets_are_void() {
    let with_assets: HashSet<usize> = [0, 2, 9].into_iter().collect();
    let void_nodes = insert_void_nodes_to_new_generations(4, &with_assets);
    let expected: HashSet<usize> = [1, 3].into_iter().collect();
    assert_eq!(void_nodes.0, expected);
    assert!(insert_void_nodes_to_new_generations(0, &with_assets).0.is_empty());
}

#[test]
fn the_key_unpauses_the_generation() {
    let mut control = GenerationControl::new(true, true, false);
    assert_eq!(control.status, GenerationControlStatus::Ongoing);
    control.status = GenerationControlStatus::Paused;
    update_generation_control(false, &mut control);
    assert_eq!(control.status, GenerationControlStatus::Paused);
    update_generation_control(true, &mut control);
    assert_eq!(control.status, GenerationControlStatus::Ongoing);
    update_generation_control(true, &mut control);
    assert_eq!(control.status, GenerationControlStatus::Ongoing);
    assert!(control.skip_void_nodes && control.pause_when_done && !control.pause_on_error);
}

#[test]
fn generating_all_pauses_the_control() {
    let mut control = GenerationControl::new(false, false, false);
    let mut generator = free_generator(1, 10);
    let outcome = generate_all(&mut control, &mut generator);
    assert_eq!(outcome.unwrap().unwrap().try_count, 1);
    assert_eq!(control.status, GenerationControlStatus::Paused);
    assert_eq!(generator.status(), Ok(GenerationStatus::Done));
    let events = generator.event_log().len();
    assert!(generate_all(&mut control, &mut generator).is_none());
    assert_eq!(generator.event_log().len(), events);
}

#[test]
fn generating_all_gives_the_error_of_a_failure() {
    let mut control = GenerationControl::new(false, false, false);
    let mut generator = impossible_generator();
    let outcome = generate_all(&mut control, &mut generator).unwrap();
    assert!(outcome.is_err());
    assert_eq!(control.status, GenerationControlStatus::Paused);
}

#[test]
fn a_batch_of_events_is_sorted_for_the_viewer() {
    let updates = vec![
        GenerationUpdate::Generated { node: node(0, 1), variant_index: 1 },
        GenerationUpdate::Failed(7),
        GenerationUpdate::Reinitializing(1),
        GenerationUpdate::Generated { node: node(2, 0), variant_index: 0 },
        GenerationUpdate::Generated { node: node(1, 1), variant_index: 1 },
        GenerationUpdate::Failed(3),
    ];
    let view = update_generation_view(&updates);
    assert!(view.reinitialized);
    assert_eq!(view.nodes_to_spawn, vec![node(2, 0), node(1, 1)]);
    assert_eq!(view.failed_nodes, vec![7, 3]);
    let calm = update_generation_view(&updates[..1].to_vec());
    assert!(!calm.reinitialized);
    assert_eq!(calm.nodes_to_spawn, vec![node(0, 1)]);
    assert!(calm.failed_nodes.is_empty());
    let nothing = update_generation_view(&Vec::new());
    assert!(!nothing.reinitialized && nothing.nodes_to_spawn.is_empty());
}

#[test]
fn a_step_for_the_viewer_is_one_step_without_skipping() {
    let mut control = GenerationControl::new(false, true, true);
    let mut generator = free_generator(2, 10);
    let void_nodes = VoidNodes([0usize, 1].into_iter().collect());
    let last = step_generation(&mut generator, &void_nodes, &mut control);
    assert_eq!(last, Ok(GenerationStatus::Ongoing));
    assert_eq!(generator.event_log().len(), 1);
    assert_eq!(control.status, GenerationControlStatus::Ongoing);
}

#[test]
fn a_step_for_the_viewer_skips_void_nodes() {
    let mut control = GenerationControl::new(true, true, true);
    let mut generator = free_generator(2, 10);
    // every model is void: the step goes on to the end
    let void_nodes = VoidNodes([0usize, 1].into_iter().collect());
    let last = step_generation(&mut generator, &void_nodes, &mut control);
    assert_eq!(last, Ok(GenerationStatus::Done));
    assert_eq!(generator.event_log().len(), 12);
    assert_eq!(control.status, GenerationControlStatus::Paused);
}

#[test]
fn a_step_for_the_viewer_stops_at_a_seen_node() {
    let mut control = GenerationControl::new(true, false, false);
    let mut generator = free_generator(6, 10);
    let void_nodes = VoidNodes([1usize].into_iter().collect());
    let mut seen = 0;
    loop {
        let before = generator.event_log().len();
        let last = step_generation(&mut generator, &void_nodes, &mut control);
        let new_events = &generator.event_log()[before..];
        let shown = new_events
            .iter()
            .filter(|event| {
                matches!(event, GenerationUpdate::Generated { node, .. } if node.model_instance.model_index == 0)
            })
            .count();
        if last == Ok(GenerationStatus::Done) {
            seen += shown;
            break;
        }
        // an ongoing step has stopped at the first node that is seen
        assert_eq!(shown, 1);
        seen += shown;
    }
    assert_eq!(control.status, GenerationControlStatus::Ongoing);
    let total = generator
        .event_log()
        .iter()
        .filter(|event| {
            matches!(event, GenerationUpdate::Generated { node, .. } if node.model_instance.model_index == 0)
        })
        .count();
    assert_eq!(seen, total);
}

#[test]
fn a_failure_pauses_the_control_if_it_is_set_to() {
    let void_nodes = VoidNodes(HashSet::new());
    let mut pausing = GenerationControl::new(false, false, true);
    let mut generator = impossible_generator();
    assert!(step_generation(&mut generator, &void_nodes, &mut pausing).is_err());
    assert_eq!(pausing.status, GenerationControlStatus::Paused);
    let mut running = GenerationControl::new(false, false, false);
    let mut other = impossible_generator();
    assert!(step_generation(&mut other, &void_nodes, &mut running).is_err());
    assert_eq!(running.status, GenerationControlStatus::Ongoing);
}

#[test]
fn keys_step_the_generation_when_it_runs() {
    let void_nodes = VoidNodes(HashSet::new());
    let mut control = GenerationControl::new(false, true, true);
    let mut generator = free_generator(3, 10);
    assert!(step_by_step_input_update(false, false, &mut control, &mut generator, &void_nodes)
        .is_none());
    assert!(generator.event_log().is_empty());
    assert_eq!(
        step_by_step_input_update(true, false, &mut control, &mut generator, &void_nodes),
        Some(Ok(GenerationStatus::Ongoing))
    );
    assert_eq!(
        step_by_step_input_update(false, true, &mut control, &mut generator, &void_nodes),
        Some(Ok(GenerationStatus::Ongoing))
    );
    assert_eq!(generator.event_log().len(), 2);
    control.status = GenerationControlStatus::Paused;
    assert!(step_by_step_input_update(true, true, &mut control, &mut generator, &void_nodes)
        .is_none());
    assert_eq!(generator.event_log().len(), 2);
}

#[test]
fn the_timer_steps_the_generation_several_times() {
    let void_nodes = VoidNodes(HashSet::new());
    let mut control = GenerationControl::new(false, true, true);
    let mut generator = free_generator(4, 10);
    assert_eq!(
        step_by_step_timed_update(false, 5, &mut control, &mut generator, &void_nodes),
        0
    );
    assert_eq!(step_by_step_timed_update(true, 5, &mut control, &mut generator, &void_nodes), 5);
    assert_eq!(generator.event_log().len(), 5);
    // twelve cells, a cell a step: the seven that are left take seven steps, the last of
    // which finds the generation done and pauses the control
    let stepped = step_by_step_timed_update(true, 100, &mut control, &mut generator, &void_nodes);
    assert_eq!(stepped, 7);
    assert_eq!(generator.event_log().len(), 12);
    assert_eq!(control.status, GenerationControlStatus::Paused);
    assert_eq!(generator.status(), Ok(GenerationStatus::Done));
    assert_eq!(
        step_by_step_timed_update(true, 100, &mut control, &mut generator, &void_nodes),
        0
    );
}

#[test]
fn the_cursor_moves_to_the_picked_cell() {
    let grid = GridDefinition::new_cartesian_3d(4, 3, 2, false);
    let mut cursor = GridOverCursor::new();
    assert_eq!(cursor.0.node_index, 0);
    assert_eq!(cursor.0.position, GridPosition::new(0, 0, 0));
    assert!(picking_update_grid_cursor_position(&mut cursor.0, 0, &grid).is_none());
    let moved = picking_update_grid_cursor_position(&mut cursor.0, 18, &grid).unwrap();
    assert_eq!(moved.marker_to_remove, None);
    assert_eq!(moved.position, GridPosition::new(2, 1, 1));
    assert_eq!(cursor.0.node_index, 18);
    assert_eq!(cursor.0.position, GridPosition::new(2, 1, 1));
    cursor.0.marker = Some(41);
    assert!(picking_update_grid_cursor_position(&mut cursor.0, 18, &grid).is_none());
    assert_eq!(cursor.0.marker, Some(41));
    let again = picking_update_grid_cursor_position(&mut cursor.0, 5, &grid).unwrap();
    assert_eq!(again.marker_to_remove, Some(41));
    assert_eq!(again.position, GridPosition::new(1, 1, 0));
    assert_eq!(cursor.0.marker, None);
}
