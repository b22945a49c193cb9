//! What a viewer of a generation decides: when to step, what to spawn, and
//! where its cursor stands. The viewer itself draws and listens; here are
//! its decisions.
pub mod generation;
pub mod picking;

use vstd::prelude::*;

verus! {

/// Whether the viewer lets the generation run.
#[derive(Clone, Copy, Debug, PartialEq, Eq, Structural)]
pub enum GenerationControlStatus {
    /// The generation waits for the viewer.
    Paused,
    /// The generation may run.
    Ongoing,
}

/// How the viewer drives the generation.
#[derive(Clone, Copy, Debug, PartialEq, Eq, Structural)]
pub struct GenerationControl {
    /// Whether the generation may run.
    pub status: GenerationControlStatus,
    /// Whether a step goes on until it has given a node that is seen.
    pub skip_void_nodes: bool,
    /// Whether the generation is paused when it is done.
    pub pause_when_done: bool,
    /// Whether the generation is paused when it fails.
    pub pause_on_error: bool,
}

impl GenerationControl {
    /// A control that lets the generation run.
    pub fn new(skip_void_nodes: bool, pause_when_done: bool, pause_on_error: bool) -> (control:
        GenerationControl)
        ensures
            control == (GenerationControl {
                status: GenerationControlStatus::Ongoing,
                skip_void_nodes,
                pause_when_done,
                pause_on_error,
            }),
    {
        GenerationControl {
            status: GenerationControlStatus::Ongoing,
            skip_void_nodes,
            pause_when_done,
            pause_on_error,
        }
    }
}

} // verus!
