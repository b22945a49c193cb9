use crate::generator::node::GridNode;
use crate::generator::Generator;
use vstd::prelude::*;

verus! {

/// What a generator tells those who watch it.
#[derive(Clone, Copy, Debug, PartialEq, Eq, Structural)]
pub enum GenerationUpdate {
    /// A cell came down to one variant: the cell with the model in it, and
    /// the index of the variant.
    Generated { node: GridNode, variant_index: usize },
    /// A contradiction was met and the generator starts again; the number
    /// counts the new starts.
    Reinitializing(u32),
    /// The generator gave up, on a contradiction in this cell.
    Failed(usize),
}

/// How far a generation is.
#[derive(Clone, Copy, Debug, PartialEq, Eq, Structural)]
pub enum GenerationStatus {
    /// Some cell has more than one variant left.
    Ongoing,
    /// Every cell has one variant.
    Done,
}

/// The generation met a contradiction and had no retry left.
#[derive(Clone, Copy, Debug, PartialEq, Eq, Structural)]
pub struct GeneratorError {
    /// The cell in which nothing was possible any more.
    pub node_index: usize,
}

/// What a generation that succeeded says of itself.
#[derive(Clone, Copy, Debug, PartialEq, Eq, Structural)]
pub struct GenInfo {
    /// Number of attempts, the one that succeeded included.
    pub try_count: u32,
}

/// How the next cell to collapse is chosen.
#[derive(Clone, Copy, Debug, PartialEq, Eq, Structural)]
pub enum NodeSelectionHeuristic {
    /// A cell of least entropy.
    MinimumRemainingValue,
    /// Any cell that is not fixed, each as likely as the other.
    Random,
}

/// How the variant of the chosen cell is chosen.
#[derive(Clone, Copy, Debug, PartialEq, Eq, Structural)]
pub enum ModelSelectionHeuristic {
    /// Each variant as likely as its weight is large.
    WeightedProbability,
    /// Each variant as likely as the other.
    Uniform,
}

/// Where a generator stands.
#[derive(Clone, Copy, Debug, PartialEq, Eq, Structural)]
pub enum InternalStatus {
    Ongoing,
    Done,
    Failed(usize),
}

} // verus!

verus! {

/// The events of `events` from `position` on; none if the log is shorter.
pub open spec fn events_from(events: Seq<GenerationUpdate>, position: int) -> Seq<
    GenerationUpdate,
> {
    if 0 <= position <= events.len() {
        events.subrange(position, events.len() as int)
    } else {
        Seq::empty()
    }
}

/// The nodes of which the events tell that their cell came down to one
/// variant, in the order of the events.
pub open spec fn generated_nodes(events: Seq<GenerationUpdate>) -> Seq<GridNode>
    decreases events.len(),
{
    if events.len() == 0 {
        Seq::empty()
    } else {
        match events.last() {
            GenerationUpdate::Generated { node, variant_index } => generated_nodes(
                events.drop_last(),
            ).push(node),
            _ => generated_nodes(events.drop_last()),
        }
    }
}

/// What one event does to what an observer knows of the cells: a cell
/// that came down to one variant is known, a new start forgets every cell,
/// and a failure changes nothing.
pub open spec fn apply_update(data: Seq<Option<GridNode>>, event: GenerationUpdate) -> Seq<
    Option<GridNode>,
> {
    match event {
        GenerationUpdate::Generated { node, variant_index } => if node.node_index < data.len() {
            data.update(node.node_index as int, Some(node))
        } else {
            data
        },
        GenerationUpdate::Reinitializing(_) => Seq::new(data.len(), |i: int| None::<GridNode>),
        GenerationUpdate::Failed(_) => data,
    }
}

/// What the events do to what an observer knows of the cells, one after
/// the other.
pub open spec fn apply_updates(data: Seq<Option<GridNode>>, events: Seq<GenerationUpdate>) -> Seq<
    Option<GridNode>,
>
    decreases events.len(),
{
    if events.len() == 0 {
        data
    } else {
        apply_update(apply_updates(data, events.drop_last()), events.last())
    }
}

/// A reader of a generator's log: it hands out the events that it has not
/// handed out yet, in the order of the log.
#[derive(Clone, Copy, Debug)]
pub struct QueuedObserver {
    cursor: usize,
}

impl QueuedObserver {
    /// How many events of the log are behind the reader.
    pub closed spec fn position(self) -> int {
        self.cursor as int
    }

    /// A reader at the end of the generator's log: it will hand out the
    /// events that come from now on.
    pub fn new(generator: &Generator) -> (observer: QueuedObserver)
        ensures
            observer.position() == generator.events().len(),
    {
        QueuedObserver { cursor: generator.event_log().len() }
    }

    /// The events that the reader has not handed out yet, oldest first;
    /// the reader moves to the end of the log.
    pub fn dequeue_all(&mut self, generator: &Generator) -> (updates: Vec<GenerationUpdate>)
        ensures
            updates@ == events_from(generator.events(), old(self).position()),
            final(self).position() == generator.events().len(),
    {
        let log = generator.event_log();
        let mut updates: Vec<GenerationUpdate> = Vec::new();
        if self.cursor <= log.len() {
            let mut i: usize = self.cursor;
            while i < log.len()
                invariant
                    self.cursor <= i <= log.len(),
                    updates@ == log@.subrange(self.cursor as int, i as int),
                decreases log.len() - i,
            {
                updates.push(log[i]);
                assert(updates@ =~= log@.subrange(self.cursor as int, i + 1));
                i += 1;
            }
        } else {
            assert(updates@ =~= Seq::<GenerationUpdate>::empty());
        }
        self.cursor = log.len();
        updates
    }

    /// The oldest event that the reader has not handed out yet, if there
    /// is one; the reader moves behind it.
    pub fn dequeue_next(&mut self, generator: &Generator) -> (update: Option<GenerationUpdate>)
        ensures
            match update {
                Some(event) => {
                    &&& 0 <= old(self).position() < generator.events().len()
                    &&& event == generator.events()[old(self).position()]
                    &&& final(self).position() == old(self).position() + 1
                },
                None => {
                    &&& old(self).position() >= generator.events().len()
                    &&& final(self).position() == old(self).position()
                },
            },
    {
        let log = generator.event_log();
        if self.cursor < log.len() {
            let event = log[self.cursor];
            self.cursor = self.cursor + 1;
            Some(event)
        } else {
            None
        }
    }
}

/// A reader of a generator's log that keeps what the log tells of the
/// cells: for each cell what it came down to, as far as the reader has read.
pub struct QueuedStatefulObserver {
    observer: QueuedObserver,
    grid_data: Vec<Option<GridNode>>,
}

impl QueuedStatefulObserver {
    /// The reader of the log.
    pub closed spec fn reader(self) -> QueuedObserver {
        self.observer
    }

    /// What is known of each cell.
    pub closed spec fn data(self) -> Seq<Option<GridNode>> {
        self.grid_data@
    }

    /// An observer at the end of the generator's log, which knows nothing
    /// of the cells yet.
    pub fn new(generator: &Generator) -> (observer: QueuedStatefulObserver)
        ensures
            observer.reader().position() == generator.events().len(),
            observer.data() == Seq::new(
                generator.spec_grid().spec_total_size() as nat,
                |i: int| None::<GridNode>,
            ),
    {
        let cells = generator.grid().total_size();
        let mut grid_data: Vec<Option<GridNode>> = Vec::new();
        let mut i: usize = 0;
        while i < cells
            invariant
                i <= cells,
                grid_data@ == Seq::new(i as nat, |k: int| None::<GridNode>),
            decreases cells - i,
        {
            grid_data.push(None);
            assert(grid_data@ =~= Seq::new((i + 1) as nat, |k: int| None::<GridNode>));
            i += 1;
        }
        QueuedStatefulObserver { observer: QueuedObserver::new(generator), grid_data }
    }

    /// Reads the events that were not read yet, and keeps what they tell.
    pub fn update(&mut self, generator: &Generator)
        ensures
            final(self).data() == apply_updates(
                old(self).data(),
                events_from(generator.events(), old(self).reader().position()),
            ),
            final(self).reader().position() == generator.events().len(),
    {
        let updates = self.observer.dequeue_all(generator);
        let mut i: usize = 0;
        assert(updates@.take(0) =~= Seq::<GenerationUpdate>::empty());
        while i < updates.len()
            invariant
                i <= updates.len(),
                self.reader().position() == generator.events().len(),
                self.data() == apply_updates(old(self).data(), updates@.take(i as int)),
            decreases updates.len() - i,
        {
            proof {
                assert(updates@.take(i + 1).drop_last() =~= updates@.take(i as int));
                assert(updates@.take(i + 1).last() == updates@[i as int]);
            }
            self.apply(updates[i]);
            i += 1;
        }
        assert(updates@.take(updates.len() as int) =~= updates@);
    }

    /// Reads the oldest event that was not read yet, if there is one, and
    /// keeps what it tells.
    pub fn update_once(&mut self, generator: &Generator) -> (update: Option<GenerationUpdate>)
        ensures
            match update {
                Some(event) => {
                    &&& 0 <= old(self).reader().position() < generator.events().len()
                    &&& event == generator.events()[old(self).reader().position()]
                    &&& final(self).reader().position() == old(self).reader().position() + 1
                    &&& final(self).data() == apply_update(old(self).data(), event)
                },
                None => {
                    &&& old(self).reader().position() >= generator.events().len()
                    &&& final(self).reader().position() == old(self).reader().position()
                    &&& final(self).data() == old(self).data()
                },
            },
    {
        let update = self.observer.dequeue_next(generator);
        match update {
            Some(event) => {
                self.apply(event);
            },
            None => {},
        }
        update
    }

    fn apply(&mut self, event: GenerationUpdate)
        ensures
            final(self).data() == apply_update(old(self).data(), event),
            final(self).reader() == old(self).reader(),
    {
        match event {
            GenerationUpdate::Generated { node, variant_index } => {
                if node.node_index < self.grid_data.len() {
                    self.grid_data[node.node_index] = Some(node);
                }
            },
            GenerationUpdate::Reinitializing(_) => {
                let mut i: usize = 0;
                while i < self.grid_data.len()
                    invariant
                        i <= self.grid_data.len(),
                        self.grid_data.len() == old(self).grid_data.len(),
                        self.observer == old(self).observer,
                        forall|k: int| 0 <= k < i ==> #[trigger] self.grid_data@[k] is None,
                    decreases self.grid_data.len() - i,
                {
                    self.grid_data[i] = None;
                    i += 1;
                }
                assert(self.data() =~= Seq::new(old(self).data().len(), |k: int| None::<GridNode>));
            },
            GenerationUpdate::Failed(_) => {},
        }
    }

    /// What is known of each cell.
    pub fn grid_data(&self) -> (data: &Vec<Option<GridNode>>)
        ensures
            data@ == self.data(),
    {
        &self.grid_data
    }
}

} // verus!
