use crate::generator::observer::ModelSelectionHeuristic;
use crate::generator::observer::NodeSelectionHeuristic;
use crate::generator::rng::random_seed;
use crate::generator::rng::RngMode;
use crate::generator::rules::Rules;
use crate::generator::Generator;
use crate::grid::GridDefinition;
use vstd::prelude::*;

verus! {

/// The most new starts of a generator that was given no other ceiling.
pub const DEFAULT_RETRY_COUNT: u32 = 10;

/// Why a builder gives no generator.
#[derive(Clone, Copy, Debug, PartialEq, Eq, Structural)]
pub enum GeneratorBuilderError {
    /// The builder was given no rules.
    MissingRules,
    /// The builder was given no grid.
    MissingGrid,
    /// The rules and the grid are not of the same coordinate system.
    CoordinateSystemMismatch,
}

/// Gathers what a generator is made of.
pub struct GeneratorBuilder {
    rules: Option<Rules>,
    grid: Option<GridDefinition>,
    rng_mode: RngMode,
    node_selection_heuristic: NodeSelectionHeuristic,
    model_selection_heuristic: ModelSelectionHeuristic,
    max_retry_count: u32,
}

impl GeneratorBuilder {
    /// The rules that the builder was given.
    pub closed spec fn rules(self) -> Option<Rules> {
        self.rules
    }

    /// The grid that the builder was given.
    pub closed spec fn grid(self) -> Option<GridDefinition> {
        self.grid
    }

    /// Where the seed comes from.
    pub closed spec fn rng_mode(self) -> RngMode {
        self.rng_mode
    }

    /// How the next cell is chosen.
    pub closed spec fn node_heuristic(self) -> NodeSelectionHeuristic {
        self.node_selection_heuristic
    }

    /// How the variant of the chosen cell is chosen.
    pub closed spec fn model_heuristic(self) -> ModelSelectionHeuristic {
        self.model_selection_heuristic
    }

    /// The most new starts.
    pub closed spec fn max_retry_count(self) -> u32 {
        self.max_retry_count
    }

    /// Whether `other` holds what this builder holds, but perhaps for the
    /// rules and the grid.
    pub open spec fn same_options(self, other: GeneratorBuilder) -> bool {
        &&& self.rng_mode() == other.rng_mode()
        &&& self.node_heuristic() == other.node_heuristic()
        &&& self.model_heuristic() == other.model_heuristic()
        &&& self.max_retry_count() == other.max_retry_count()
    }

    /// A builder without rules and grid: it draws its seed, chooses cells
    /// by entropy and variants by weight, and allows ten new starts.
    pub fn new() -> (builder: Self)
        ensures
            builder.rules() is None,
            builder.grid() is None,
            builder.rng_mode() == RngMode::RandomSeed,
            builder.node_heuristic() == NodeSelectionHeuristic::MinimumRemainingValue,
            builder.model_heuristic() == ModelSelectionHeuristic::WeightedProbability,
            builder.max_retry_count() == DEFAULT_RETRY_COUNT,
    {
        GeneratorBuilder {
            rules: None,
            grid: None,
            rng_mode: RngMode::RandomSeed,
            node_selection_heuristic: NodeSelectionHeuristic::MinimumRemainingValue,
            model_selection_heuristic: ModelSelectionHeuristic::WeightedProbability,
            max_retry_count: DEFAULT_RETRY_COUNT,
        }
    }

    /// Gives the builder its rules.
    pub fn with_rules(self, rules: Rules) -> (builder: Self)
        ensures
            builder.rules() == Some(rules),
            builder.grid() == self.grid(),
            builder.same_options(self),
    {
        let mut builder = self;
        builder.rules = Some(rules);
        builder
    }

    /// Gives the builder its grid.
    pub fn with_grid(self, grid: GridDefinition) -> (builder: Self)
        ensures
            builder.grid() == Some(grid),
            builder.rules() == self.rules(),
            builder.same_options(self),
    {
        let mut builder = self;
        builder.grid = Some(grid);
        builder
    }

    /// Says where the seed comes from.
    pub fn with_rng(self, rng_mode: RngMode) -> (builder: Self)
        ensures
            builder.rng_mode() == rng_mode,
            builder.rules() == self.rules(),
            builder.grid() == self.grid(),
            builder.node_heuristic() == self.node_heuristic(),
            builder.model_heuristic() == self.model_heuristic(),
            builder.max_retry_count() == self.max_retry_count(),
    {
        let mut builder = self;
        builder.rng_mode = rng_mode;
        builder
    }

    /// Says how the next cell is chosen.
    pub fn with_node_heuristic(self, heuristic: NodeSelectionHeuristic) -> (builder: Self)
        ensures
            builder.node_heuristic() == heuristic,
            builder.rules() == self.rules(),
            builder.grid() == self.grid(),
            builder.rng_mode() == self.rng_mode(),
            builder.model_heuristic() == self.model_heuristic(),
            builder.max_retry_count() == self.max_retry_count(),
    {
        let mut builder = self;
        builder.node_selection_heuristic = heuristic;
        builder
    }

    /// Says how the variant of the chosen cell is chosen.
    pub fn with_model_heuristic(self, heuristic: ModelSelectionHeuristic) -> (builder: Self)
        ensures
            builder.model_heuristic() == heuristic,
            builder.rules() == self.rules(),
            builder.grid() == self.grid(),
            builder.rng_mode() == self.rng_mode(),
            builder.node_heuristic() == self.node_heuristic(),
            builder.max_retry_count() == self.max_retry_count(),
    {
        let mut builder = self;
        builder.model_selection_heuristic = heuristic;
        builder
    }

    /// Says how many new starts a generation may take.
    pub fn with_max_retry_count(self, max_retry_count: u32) -> (builder: Self)
        ensures
            builder.max_retry_count() == max_retry_count,
            builder.rules() == self.rules(),
            builder.grid() == self.grid(),
            builder.rng_mode() == self.rng_mode(),
            builder.node_heuristic() == self.node_heuristic(),
            builder.model_heuristic() == self.model_heuristic(),
    {
        let mut builder = self;
        builder.max_retry_count = max_retry_count;
        builder
    }

    /// The error that building gives, if it gives one: the first that
    /// applies of no rules, no grid, and rules and grid of two coordinate
    /// systems.
    pub open spec fn build_error(self) -> Option<GeneratorBuilderError> {
        if self.rules() is None {
            Some(GeneratorBuilderError::MissingRules)
        } else if self.grid() is None {
            Some(GeneratorBuilderError::MissingGrid)
        } else if self.rules()->0.system() != self.grid()->0.system() {
            Some(GeneratorBuilderError::CoordinateSystemMismatch)
        } else {
            None
        }
    }

    /// Builds the generator: every variant is possible in every cell, and
    /// the generator of random numbers, started from the seed, has drawn a
    /// jitter for each cell. With a seed to be drawn, the seed is any number.
    pub fn build(self) -> (result: Result<Generator, GeneratorBuilderError>)
        ensures
            match result {
                Ok(generator) => {
                    &&& self.build_error() is None
                    &&& generator.wf()
                    &&& generator.spec_rules() == self.rules()->0
                    &&& generator.spec_grid() == self.grid()->0
                    &&& generator.node_heuristic() == self.node_heuristic()
                    &&& generator.model_heuristic() == self.model_heuristic()
                    &&& generator.spec_max_retry_count() == self.max_retry_count()
                    &&& self.rng_mode() matches RngMode::Seeded(seed) ==> generator.spec_seed()
                        == seed
                    &&& generator.is_fresh()
                },
                Err(error) => self.build_error() == Some(error),
            },
    {
        let rules = match self.rules {
            Some(rules) => rules,
            None => {
                return Err(GeneratorBuilderError::MissingRules);
            },
        };
        let grid = match self.grid {
            Some(grid) => grid,
            None => {
                return Err(GeneratorBuilderError::MissingGrid);
            },
        };
        let same = match (rules.coordinate_system(), grid.coordinate_system()) {
            (
                crate::grid::direction::CoordinateSystem::Cartesian2D,
                crate::grid::direction::CoordinateSystem::Cartesian2D,
            ) => true,
            (
                crate::grid::direction::CoordinateSystem::Cartesian3D,
                crate::grid::direction::CoordinateSystem::Cartesian3D,
            ) => true,
            _ => false,
        };
        if !same {
            return Err(GeneratorBuilderError::CoordinateSystemMismatch);
        }
        let seed = match self.rng_mode {
            RngMode::Seeded(seed) => seed,
            RngMode::RandomSeed => random_seed(),
        };
        Ok(
            Generator::new(
                rules,
                grid,
                self.node_selection_heuristic,
                self.model_selection_heuristic,
                self.max_retry_count,
                seed,
            ),
        )
    }
}

} // verus!
