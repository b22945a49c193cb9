use crate::debug_plugin::GenerationControl;
use crate::debug_plugin::GenerationControlStatus;
use crate::generator::node::GridNode;
use crate::generator::node::ModelIndex;
use crate::generator::observer::GenInfo;
use crate::generator::observer::GenerationStatus;
use crate::generator::observer::GenerationUpdate;
use crate::generator::observer::GeneratorError;
use crate::generator::observer::InternalStatus;
use crate::generator::Generator;
use std::collections::HashSet;
use vstd::prelude::*;

verus! {

/// The models that have nothing to show: a step that gives only such
/// models may be skipped over.
pub struct VoidNodes(pub HashSet<ModelIndex>);

/// The models among the first `models_count` that are not in
/// `models_with_assets`.
pub fn insert_void_nodes_to_new_generations(
    models_count: usize,
    models_with_assets: &HashSet<ModelIndex>,
) -> (void_nodes: VoidNodes)
    ensures
        forall|model: usize|
            void_nodes.0@.contains(model) <==> (model < models_count
                && !models_with_assets@.contains(model)),
{
    let mut void_nodes: HashSet<ModelIndex> = HashSet::new();
    let mut model_index: usize = 0;
    while model_index < models_count
        invariant
            model_index <= models_count,
            forall|model: usize|
                void_nodes@.contains(model) <==> (model < model_index
                    && !models_with_assets@.contains(model)),
        decreases models_count - model_index,
    {
        if !models_with_assets.contains(&model_index) {
            void_nodes.insert(model_index);
        }
        model_index += 1;
    }
    VoidNodes(void_nodes)
}

/// Lets a paused generation run again when the key to unpause was pressed.
pub fn update_generation_control(unpause_pressed: bool, generation_control: &mut GenerationControl)
    ensures
        final(generation_control).status == if unpause_pressed {
            GenerationControlStatus::Ongoing
        } else {
            old(generation_control).status
        },
        final(generation_control).skip_void_nodes == old(generation_control).skip_void_nodes,
        final(generation_control).pause_when_done == old(generation_control).pause_when_done,
        final(generation_control).pause_on_error == old(generation_control).pause_on_error,
{
    if unpause_pressed {
        match generation_control.status {
            GenerationControlStatus::Paused => {
                generation_control.status = GenerationControlStatus::Ongoing;
            },
            GenerationControlStatus::Ongoing => (),
        }
    }
}

/// Runs the whole generation if the control lets it run, and pauses the
/// control. Gives what the generation gave; nothing if it did not run.
pub fn generate_all(generation_control: &mut GenerationControl, generation: &mut Generator) -> (
    outcome: Option<Result<GenInfo, GeneratorError>>
)
    requires
        old(generation).wf(),
    ensures
        final(generation).wf(),
        final(generation).same_setup(*old(generation)),
        final(generation_control).skip_void_nodes == old(generation_control).skip_void_nodes,
        final(generation_control).pause_when_done == old(generation_control).pause_when_done,
        final(generation_control).pause_on_error == old(generation_control).pause_on_error,
        match outcome {
            Some(result) => {
                &&& old(generation_control).status == GenerationControlStatus::Ongoing
                &&& final(generation_control).status == GenerationControlStatus::Paused
                &&& Generator::run_result(*old(generation), *final(generation), result)
            },
            None => {
                &&& old(generation_control).status == GenerationControlStatus::Paused
                &&& final(generation_control).status == GenerationControlStatus::Paused
                &&& *final(generation) == *old(generation)
            },
        },
{
    match generation_control.status {
        GenerationControlStatus::Ongoing => {
            let result = generation.generate();
            generation_control.status = GenerationControlStatus::Paused;
            Some(result)
        },
        GenerationControlStatus::Paused => None,
    }
}

/// What a viewer does with a batch of events.
pub struct ViewUpdate {
    /// Whether the generation started anew: what the viewer shows of
    /// earlier attempts has to go.
    pub reinitialized: bool,
    /// The nodes to show: those that came since the last new start.
    pub nodes_to_spawn: Vec<GridNode>,
    /// The cells to mark as failed.
    pub failed_nodes: Vec<usize>,
}

/// Whether one of the first `count` events tells of a new start.
pub open spec fn restarted(updates: Seq<GenerationUpdate>, count: nat) -> bool
    decreases count,
{
    if count == 0 {
        false
    } else {
        updates[count - 1] is Reinitializing || restarted(updates, (count - 1) as nat)
    }
}

/// The nodes that the first `count` events leave to show: the nodes that
/// came since the last new start, in their order.
pub open spec fn nodes_since_restart(updates: Seq<GenerationUpdate>, count: nat) -> Seq<GridNode>
    decreases count,
{
    if count == 0 {
        Seq::empty()
    } else {
        match updates[count - 1] {
            GenerationUpdate::Generated { node, variant_index } => nodes_since_restart(
                updates,
                (count - 1) as nat,
            ).push(node),
            GenerationUpdate::Reinitializing(_) => Seq::empty(),
            GenerationUpdate::Failed(_) => nodes_since_restart(updates, (count - 1) as nat),
        }
    }
}

/// The cells of which the first `count` events tell that the generation
/// failed in them, in their order.
pub open spec fn failures(updates: Seq<GenerationUpdate>, count: nat) -> Seq<usize>
    decreases count,
{
    if count == 0 {
        Seq::empty()
    } else {
        match updates[count - 1] {
            GenerationUpdate::Failed(cell) => failures(updates, (count - 1) as nat).push(cell),
            _ => failures(updates, (count - 1) as nat),
        }
    }
}

/// Sorts a batch of events into what the viewer has to do.
pub fn update_generation_view(updates: &Vec<GenerationUpdate>) -> (view: ViewUpdate)
    ensures
        view.reinitialized == restarted(updates@, updates@.len()),
        view.nodes_to_spawn@ == nodes_since_restart(updates@, updates@.len()),
        view.failed_nodes@ == failures(updates@, updates@.len()),
{
    let mut reinitialized = false;
    let mut nodes_to_spawn: Vec<GridNode> = Vec::new();
    let mut failed_nodes: Vec<usize> = Vec::new();
    let mut i: usize = 0;
    while i < updates.len()
        invariant
            i <= updates.len(),
            reinitialized == restarted(updates@, i as nat),
            nodes_to_spawn@ == nodes_since_restart(updates@, i as nat),
            failed_nodes@ == failures(updates@, i as nat),
        decreases updates.len() - i,
    {
        match updates[i] {
            GenerationUpdate::Generated { node, variant_index } => {
                nodes_to_spawn.push(node);
            },
            GenerationUpdate::Reinitializing(_) => {
                reinitialized = true;
                nodes_to_spawn.clear();
            },
            GenerationUpdate::Failed(node_index) => {
                failed_nodes.push(node_index);
            },
        }
        i += 1;
    }
    ViewUpdate { reinitialized, nodes_to_spawn, failed_nodes }
}

/// Whether one of `nodes` holds a model that is not in `void_nodes`.
pub open spec fn any_seen(nodes: Seq<GridNode>, void_nodes: Set<usize>) -> bool {
    exists|i: int|
        0 <= i < nodes.len() && !void_nodes.contains((#[trigger] nodes[i]).model_instance.model_index)
}

/// Whether step `i` of the trace gave a node that is seen.
pub open spec fn step_seen(trace: Seq<Generator>, i: int, void_nodes: Set<usize>) -> bool {
    any_seen(trace[i + 1].collected(trace[i].events().len() as int), void_nodes)
}

fn has_seen_node(nodes: &Vec<GridNode>, void_nodes: &VoidNodes) -> (seen: bool)
    ensures
        seen == any_seen(nodes@, void_nodes.0@),
{
    let mut i: usize = 0;
    while i < nodes.len()
        invariant
            i <= nodes.len(),
            forall|k: int|
                0 <= k < i ==> void_nodes.0@.contains(
                    (#[trigger] nodes@[k]).model_instance.model_index,
                ),
        decreases nodes.len() - i,
    {
        if !void_nodes.0.contains(&nodes[i].model_instance.model_index) {
            return true;
        }
        i += 1;
    }
    false
}

/// What a step for the viewer does, from the generator and the control
/// before it to those after it and the result of the last step. A run of
/// steps leads from the one generator to the other; if the control does
/// not skip void nodes, it is one step; no step but the last gave a node
/// that is seen; and if the last step left the generation ongoing and the
/// control skips void nodes, the last step gave a node that is seen. The
/// control is paused if the generation is done or has failed and the
/// control is set to pause then, and is else as it was.
pub open spec fn viewer_step(
    before: Generator,
    control: GenerationControl,
    void_nodes: Set<usize>,
    after: Generator,
    control_after: GenerationControl,
    last: Result<GenerationStatus, GeneratorError>,
) -> bool {
    &&& control_after.skip_void_nodes == control.skip_void_nodes
    &&& control_after.pause_when_done == control.pause_when_done
    &&& control_after.pause_on_error == control.pause_on_error
    &&& control_after.status == match last {
        Ok(GenerationStatus::Ongoing) => control.status,
        Ok(GenerationStatus::Done) => if control.pause_when_done {
            GenerationControlStatus::Paused
        } else {
            control.status
        },
        Err(_) => if control.pause_on_error {
            GenerationControlStatus::Paused
        } else {
            control.status
        },
    }
    &&& last == Ok::<GenerationStatus, GeneratorError>(GenerationStatus::Done)
        <==> after.spec_status() == InternalStatus::Done
    &&& last matches Err(error) ==> after.spec_status() == InternalStatus::Failed(error.node_index)
    &&& exists|trace: Seq<Generator>, results: Seq<Result<GenerationStatus, GeneratorError>>|
        #![trigger Generator::is_run(trace, results)]
        {
            &&& Generator::is_run(trace, results)
            &&& results.len() > 0
            &&& trace[0] == before
            &&& trace.last() == after
            &&& results.last() == last
            &&& !control.skip_void_nodes ==> results.len() == 1
            &&& forall|i: int|
                0 <= i < results.len() - 1 ==> !#[trigger] step_seen(trace, i, void_nodes)
            &&& (last == Ok::<GenerationStatus, GeneratorError>(GenerationStatus::Ongoing)
                && control.skip_void_nodes) ==> step_seen(trace, results.len() - 1, void_nodes)
        }
}

/// Steps the generation for the viewer: one step, and further steps while
/// the generation is ongoing, the control skips void nodes, and the last
/// step gave no node that is seen. The control is paused when the
/// generation is done or has failed, if it is set to pause then. Gives the
/// result of the last step.
pub fn step_generation(
    generation: &mut Generator,
    void_nodes: &VoidNodes,
    generation_control: &mut GenerationControl,
) -> (last: Result<GenerationStatus, GeneratorError>)
    requires
        old(generation).wf(),
    ensures
        final(generation).wf(),
        final(generation).same_setup(*old(generation)),
        viewer_step(
            *old(generation),
            *old(generation_control),
            void_nodes.0@,
            *final(generation),
            *final(generation_control),
            last,
        ),
{
    let ghost mut trace: Seq<Generator> = seq![*generation];
    let ghost mut results: Seq<Result<GenerationStatus, GeneratorError>> = Seq::empty();
    proof {
        reveal(Generator::is_run);
    }
    loop
        invariant
            generation.wf(),
            generation.same_setup(*old(generation)),
            *generation_control == *old(generation_control),
            Generator::is_run(trace, results),
            trace[0] == *old(generation),
            trace.last() == *generation,
            forall|i: int|
                0 <= i < results.len() ==> #[trigger] results[i] == Ok::<
                    GenerationStatus,
                    GeneratorError,
                >(GenerationStatus::Ongoing),
            !generation_control.skip_void_nodes ==> results.len() == 0,
            forall|i: int| 0 <= i < results.len() ==> !#[trigger] step_seen(trace, i, void_nodes.0@),
        decreases
                generation.spec_max_retry_count() - generation.spec_retry_count(),
                generation.unfixed_count(),
    {
        let ghost before = *generation;
        let ghost trace_before = trace;
        proof {
            crate::generator::lemma_invariant(*generation);
            assert(trace[trace.len() - 1] == before);
        }
        let outcome = generation.select_and_propagate_collected();
        proof {
            reveal(Generator::is_run);
            crate::generator::lemma_invariant(*generation);
            let step = crate::generator::status_of(outcome);
            let longer = trace.push(*generation);
            let more = results.push(step);
            assert forall|i: int| 0 <= i < more.len() implies Generator::step_result(
                #[trigger] longer[i],
                longer[i + 1],
                more[i],
            ) && longer[i + 1].same_setup(longer[i]) by {
                if i < results.len() {
                    assert(longer[i] == trace[i]);
                    assert(longer[i + 1] == trace[i + 1]);
                } else {
                    assert(longer[i] == before);
                }
            }
            assert forall|i: int| 0 <= i < longer.len() implies (#[trigger] longer[i]).wf() by {
                if i < trace.len() {
                    assert(longer[i] == trace[i]);
                }
            }
            trace = longer;
            results = more;
            assert(Generator::is_run(trace, results));
            assert forall|i: int| 0 <= i < results.len() - 1 implies !#[trigger] step_seen(
                trace,
                i,
                void_nodes.0@,
            ) by {
                assert(trace[i] == trace_before[i]);
                assert(trace[i + 1] == trace_before[i + 1]);
                assert(!step_seen(trace_before, i, void_nodes.0@));
            }
        }
        match outcome {
            Ok((status, nodes_to_spawn)) => {
                let non_void_spawned = has_seen_node(&nodes_to_spawn, void_nodes);
                proof {
                    assert(trace[results.len() - 1] == before);
                    assert(trace[results.len() as int] == *generation);
                    assert(non_void_spawned == step_seen(
                        trace,
                        results.len() - 1,
                        void_nodes.0@,
                    ));
                }
                match status {
                    GenerationStatus::Ongoing => {},
                    GenerationStatus::Done => {
                        if generation_control.pause_when_done {
                            generation_control.status = GenerationControlStatus::Paused;
                        }
                        return Ok(GenerationStatus::Done);
                    },
                }
                if non_void_spawned || !generation_control.skip_void_nodes {
                    return Ok(GenerationStatus::Ongoing);
                }
            },
            Err(error) => {
                if generation_control.pause_on_error {
                    generation_control.status = GenerationControlStatus::Paused;
                }
                return Err(error);
            },
        }
    }
}

/// Steps the generation if the control lets it run and a key to step is
/// pressed. Gives the result of the last step; nothing if no step was made.
pub fn step_by_step_input_update(
    step_pressed: bool,
    continuous_step_pressed: bool,
    generation_control: &mut GenerationControl,
    generation: &mut Generator,
    void_nodes: &VoidNodes,
) -> (last: Option<Result<GenerationStatus, GeneratorError>>)
    requires
        old(generation).wf(),
    ensures
        final(generation).wf(),
        final(generation).same_setup(*old(generation)),
        last is Some <==> (old(generation_control).status == GenerationControlStatus::Ongoing && (
        step_pressed || continuous_step_pressed)),
        last is None ==> *final(generation) == *old(generation) && *final(generation_control)
            == *old(generation_control),
        last matches Some(result) ==> viewer_step(
            *old(generation),
            *old(generation_control),
            void_nodes.0@,
            *final(generation),
            *final(generation_control),
            result,
        ),
{
    let runs = match generation_control.status {
        GenerationControlStatus::Ongoing => true,
        GenerationControlStatus::Paused => false,
    };
    if runs && (step_pressed || continuous_step_pressed) {
        Some(step_generation(generation, void_nodes, generation_control))
    } else {
        None
    }
}

/// Whether the generators and controls are those of a row of steps for
/// the viewer, with the given results: each step is made while the control
/// lets the generation run.
pub open spec fn viewer_steps(
    generations: Seq<Generator>,
    controls: Seq<GenerationControl>,
    results: Seq<Result<GenerationStatus, GeneratorError>>,
    void_nodes: Set<usize>,
) -> bool {
    &&& generations.len() == results.len() + 1
    &&& controls.len() == results.len() + 1
    &&& forall|i: int|
        0 <= i < results.len() ==> {
            &&& (#[trigger] controls[i]).status == GenerationControlStatus::Ongoing
            &&& viewer_step(
                generations[i],
                controls[i],
                void_nodes,
                generations[i + 1],
                controls[i + 1],
                results[i],
            )
        }
}

/// Steps the generation up to `steps_count` times if the control lets it
/// run and the timer has finished; it stops when the control is paused.
/// Gives the number of times it stepped.
pub fn step_by_step_timed_update(
    timer_finished: bool,
    steps_count: u32,
    generation_control: &mut GenerationControl,
    generation: &mut Generator,
    void_nodes: &VoidNodes,
) -> (stepped: u32)
    requires
        old(generation).wf(),
    ensures
        final(generation).wf(),
        final(generation).same_setup(*old(generation)),
        stepped <= steps_count,
        !(timer_finished && old(generation_control).status == GenerationControlStatus::Ongoing)
            ==> stepped == 0 && *final(generation) == *old(generation) && *final(
            generation_control
        ) == *old(generation_control),
        stepped < steps_count && timer_finished && old(generation_control).status
            == GenerationControlStatus::Ongoing ==> final(generation_control).status
            == GenerationControlStatus::Paused,
        exists|
            generations: Seq<Generator>,
            controls: Seq<GenerationControl>,
            results: Seq<Result<GenerationStatus, GeneratorError>>,
        |
            #![trigger viewer_steps(generations, controls, results, void_nodes.0@)]
            {
                &&& viewer_steps(generations, controls, results, void_nodes.0@)
                &&& results.len() == stepped
                &&& generations[0] == *old(generation)
                &&& controls[0] == *old(generation_control)
                &&& generations.last() == *final(generation)
                &&& controls.last() == *final(generation_control)
            },
{
    let mut stepped: u32 = 0;
    let runs = match generation_control.status {
        GenerationControlStatus::Ongoing => true,
        GenerationControlStatus::Paused => false,
    };
    let ghost mut generations: Seq<Generator> = seq![*generation];
    let ghost mut controls: Seq<GenerationControl> = seq![*generation_control];
    let ghost mut results: Seq<Result<GenerationStatus, GeneratorError>> = Seq::empty();
    proof {
        assert(viewer_steps(generations, controls, results, void_nodes.0@));
    }
    if timer_finished && runs {
        while stepped < steps_count
            invariant
                stepped <= steps_count,
                generation.wf(),
                generation.same_setup(*old(generation)),
                generation_control.status == GenerationControlStatus::Ongoing,
                timer_finished,
                old(generation_control).status == GenerationControlStatus::Ongoing,
                viewer_steps(generations, controls, results, void_nodes.0@),
                results.len() == stepped,
                generations[0] == *old(generation),
                controls[0] == *old(generation_control),
                generations.last() == *generation,
                controls.last() == *generation_control,
            decreases steps_count - stepped,
        {
            let ghost generation_before = *generation;
            let ghost control_before = *generation_control;
            let last = step_generation(generation, void_nodes, generation_control);
            proof {
                let more_generations = generations.push(*generation);
                let more_controls = controls.push(*generation_control);
                let more_results = results.push(last);
                assert forall|i: int| 0 <= i < more_results.len() implies {
                    &&& (#[trigger] more_controls[i]).status == GenerationControlStatus::Ongoing
                    &&& viewer_step(
                        more_generations[i],
                        more_controls[i],
                        void_nodes.0@,
                        more_generations[i + 1],
                        more_controls[i + 1],
                        more_results[i],
                    )
                } by {
                    if i < results.len() {
                        assert(more_controls[i] == controls[i]);
                        assert(more_generations[i] == generations[i]);
                        assert(more_generations[i + 1] == generations[i + 1]);
                        assert(more_controls[i + 1] == controls[i + 1]);
                    } else {
                        assert(more_generations[i] == generation_before);
                        assert(more_controls[i] == control_before);
                    }
                }
                generations = more_generations;
                controls = more_controls;
                results = more_results;
                assert(viewer_steps(generations, controls, results, void_nodes.0@));
            }
            stepped += 1;
            match generation_control.status {
                GenerationControlStatus::Ongoing => {},
                GenerationControlStatus::Paused => {
                    return stepped;
                },
            }
        }
    }
    stepped
}

} // verus!
