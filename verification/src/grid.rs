//! Grid geometry: sizes, looping axes, cell indices and neighbours.
pub mod direction;

use crate::grid::direction::CoordinateSystem;
use crate::grid::direction::Direction;
use vstd::prelude::*;

verus! {

/// Coordinates of a cell.
#[derive(Clone, Copy, Debug, PartialEq, Eq, Structural)]
pub struct GridPosition {
    pub x: u32,
    pub y: u32,
    pub z: u32,
}

impl GridPosition {
    /// The position with these coordinates.
    pub fn new(x: u32, y: u32, z: u32) -> (position: GridPosition)
        ensures
            position == (GridPosition { x, y, z }),
    {
        GridPosition { x, y, z }
    }
}

/// Where one step along an axis leads from `coordinate`: to the next or the
/// previous coordinate, round the end where the axis loops, and nowhere
/// from the end of an axis that does not.
pub open spec fn step_axis(coordinate: int, size: int, looping: bool, forward: bool) -> Option<
    int,
> {
    if forward {
        if coordinate + 1 < size {
            Some(coordinate + 1)
        } else if looping {
            Some(0)
        } else {
            None
        }
    } else {
        if coordinate > 0 {
            Some(coordinate - 1)
        } else if looping {
            Some(size - 1)
        } else {
            None
        }
    }
}

/// The shape of a grid.
#[derive(Clone, Copy, Debug)]
pub struct GridDefinition {
    size_x: u32,
    size_y: u32,
    size_z: u32,
    looping_x: bool,
    looping_y: bool,
    looping_z: bool,
    coordinate_system: CoordinateSystem,
}

impl GridDefinition {
    /// Number of cells along x.
    pub closed spec fn spec_size_x(self) -> int {
        self.size_x as int
    }

    /// Number of cells along y.
    pub closed spec fn spec_size_y(self) -> int {
        self.size_y as int
    }

    /// Number of cells along z.
    pub closed spec fn spec_size_z(self) -> int {
        self.size_z as int
    }

    /// Whether the last cell along x has the first one as its neighbour.
    pub closed spec fn spec_looping_x(self) -> bool {
        self.looping_x
    }

    /// Whether the last cell along y has the first one as its neighbour.
    pub closed spec fn spec_looping_y(self) -> bool {
        self.looping_y
    }

    /// Whether the last cell along z has the first one as its neighbour.
    pub closed spec fn spec_looping_z(self) -> bool {
        self.looping_z
    }

    /// The grid's coordinate system.
    pub closed spec fn system(self) -> CoordinateSystem {
        self.coordinate_system
    }

    /// Number of cells.
    pub open spec fn spec_total_size(self) -> int {
        self.spec_size_x() * (self.spec_size_y() * self.spec_size_z())
    }

    /// The grid's invariant: the number of cells is a `usize`, and a grid of
    /// two dimensions has one layer.
    #[verifier::type_invariant]
    pub closed spec fn wf(self) -> bool {
        &&& self.size_x * (self.size_y * self.size_z) <= usize::MAX
        &&& self.coordinate_system == CoordinateSystem::Cartesian2D ==> self.size_z == 1
    }

    /// Whether the coordinates are those of a cell.
    pub open spec fn in_bounds(self, x: int, y: int, z: int) -> bool {
        &&& 0 <= x < self.spec_size_x()
        &&& 0 <= y < self.spec_size_y()
        &&& 0 <= z < self.spec_size_z()
    }

    /// Index of the cell at the coordinates: x runs fastest, then y, then z.
    pub open spec fn spec_index_from_coords(self, x: int, y: int, z: int) -> int {
        x + self.spec_size_x() * (y + self.spec_size_y() * z)
    }

    /// Coordinates of the cell with the index.
    pub open spec fn spec_pos_from_index(self, index: int) -> (int, int, int) {
        (
            index % self.spec_size_x(),
            (index / self.spec_size_x()) % self.spec_size_y(),
            (index / self.spec_size_x()) / self.spec_size_y(),
        )
    }

    /// Index of the neighbour of the cell `index` in `direction`, if it has one.
    pub open spec fn neighbor(self, index: int, direction: Direction) -> Option<int> {
        let (x, y, z) = self.spec_pos_from_index(index);
        match direction {
            Direction::XForward => match step_axis(
                x,
                self.spec_size_x(),
                self.spec_looping_x(),
                true,
            ) {
                Some(nx) => Some(self.spec_index_from_coords(nx, y, z)),
                None => None,
            },
            Direction::XBackward => match step_axis(
                x,
                self.spec_size_x(),
                self.spec_looping_x(),
                false,
            ) {
                Some(nx) => Some(self.spec_index_from_coords(nx, y, z)),
                None => None,
            },
            Direction::YForward => match step_axis(
                y,
                self.spec_size_y(),
                self.spec_looping_y(),
                true,
            ) {
                Some(ny) => Some(self.spec_index_from_coords(x, ny, z)),
                None => None,
            },
            Direction::YBackward => match step_axis(
                y,
                self.spec_size_y(),
                self.spec_looping_y(),
                false,
            ) {
                Some(ny) => Some(self.spec_index_from_coords(x, ny, z)),
                None => None,
            },
            Direction::ZForward => match step_axis(
                z,
                self.spec_size_z(),
                self.spec_looping_z(),
                true,
            ) {
                Some(nz) => Some(self.spec_index_from_coords(x, y, nz)),
                None => None,
            },
            Direction::ZBackward => match step_axis(
                z,
                self.spec_size_z(),
                self.spec_looping_z(),
                false,
            ) {
                Some(nz) => Some(self.spec_index_from_coords(x, y, nz)),
                None => None,
            },
        }
    }

    /// A grid of two dimensions: one layer of `size_x` by `size_y` cells,
    /// which loops along x and y if `looping` is set.
    pub fn new_cartesian_2d(size_x: u32, size_y: u32, looping: bool) -> (grid: GridDefinition)
        requires
            size_x * size_y <= usize::MAX,
        ensures
            grid.wf(),
            grid.spec_size_x() == size_x,
            grid.spec_size_y() == size_y,
            grid.spec_size_z() == 1,
            grid.spec_looping_x() == looping,
            grid.spec_looping_y() == looping,
            grid.spec_looping_z() == false,
            grid.system() == CoordinateSystem::Cartesian2D,
    {
        assert(size_x * (size_y * 1) == size_x * size_y) by (nonlinear_arith);
        GridDefinition {
            size_x,
            size_y,
            size_z: 1,
            looping_x: looping,
            looping_y: looping,
            looping_z: false,
            coordinate_system: CoordinateSystem::Cartesian2D,
        }
    }

    /// A grid of three dimensions, which loops along every axis if `looping`
    /// is set.
    pub fn new_cartesian_3d(size_x: u32, size_y: u32, size_z: u32, looping: bool) -> (grid:
        GridDefinition)
        requires
            size_x * (size_y * size_z) <= usize::MAX,
        ensures
            grid.wf(),
            grid.spec_size_x() == size_x,
            grid.spec_size_y() == size_y,
            grid.spec_size_z() == size_z,
            grid.spec_looping_x() == looping,
            grid.spec_looping_y() == looping,
            grid.spec_looping_z() == looping,
            grid.system() == CoordinateSystem::Cartesian3D,
    {
        GridDefinition {
            size_x,
            size_y,
            size_z,
            looping_x: looping,
            looping_y: looping,
            looping_z: looping,
            coordinate_system: CoordinateSystem::Cartesian3D,
        }
    }

    /// The same grid, looping along the axes that are set and no other. A
    /// grid of two dimensions has no z axis to loop along.
    pub fn with_loops(self, loop_x: bool, loop_y: bool, loop_z: bool) -> (grid: GridDefinition)
        ensures
            grid.wf(),
            grid.spec_size_x() == self.spec_size_x(),
            grid.spec_size_y() == self.spec_size_y(),
            grid.spec_size_z() == self.spec_size_z(),
            grid.spec_looping_x() == loop_x,
            grid.spec_looping_y() == loop_y,
            grid.spec_looping_z() == (loop_z && self.system() == CoordinateSystem::Cartesian3D),
            grid.system() == self.system(),
    {
        proof {
            use_type_invariant(&self);
        }
        let flat = match self.coordinate_system {
            CoordinateSystem::Cartesian2D => true,
            CoordinateSystem::Cartesian3D => false,
        };
        GridDefinition {
            size_x: self.size_x,
            size_y: self.size_y,
            size_z: self.size_z,
            looping_x: loop_x,
            looping_y: loop_y,
            looping_z: loop_z && !flat,
            coordinate_system: self.coordinate_system,
        }
    }

    /// Number of cells along x.
    pub fn size_x(&self) -> (size: u32)
        ensures
            size == self.spec_size_x(),
    {
        self.size_x
    }

    /// Number of cells along y.
    pub fn size_y(&self) -> (size: u32)
        ensures
            size == self.spec_size_y(),
    {
        self.size_y
    }

    /// Number of cells along z.
    pub fn size_z(&self) -> (size: u32)
        ensures
            size == self.spec_size_z(),
    {
        self.size_z
    }

    /// The grid's coordinate system.
    pub fn coordinate_system(&self) -> (system: CoordinateSystem)
        ensures
            system == self.system(),
    {
        self.coordinate_system
    }

    /// Number of cells.
    pub fn total_size(&self) -> (total: usize)
        ensures
            total == self.spec_total_size(),
            self.wf(),
    {
        proof {
            use_type_invariant(self);
            assert(0 <= self.size_y * self.size_z <= self.size_x * (self.size_y * self.size_z)
                || self.size_x == 0) by (nonlinear_arith);
            if self.size_x == 0 {
                assert(self.size_y * self.size_z <= u32::MAX * u32::MAX) by (nonlinear_arith);
            }
        }
        if self.size_x == 0 {
            0
        } else {
            (self.size_x as usize) * ((self.size_y as usize) * (self.size_z as usize))
        }
    }

    /// Index of the cell at `grid_position`.
    pub fn index_from_pos(&self, grid_position: &GridPosition) -> (index: usize)
        requires
            self.in_bounds(grid_position.x as int, grid_position.y as int, grid_position.z as int),
        ensures
            index == self.spec_index_from_coords(
                grid_position.x as int,
                grid_position.y as int,
                grid_position.z as int,
            ),
            index < self.spec_total_size(),
    {
        self.index_from_coords(grid_position.x, grid_position.y, grid_position.z)
    }

    /// Index of the cell at the coordinates.
    pub fn index_from_coords(&self, x: u32, y: u32, z: u32) -> (index: usize)
        requires
            self.in_bounds(x as int, y as int, z as int),
        ensures
            index == self.spec_index_from_coords(x as int, y as int, z as int),
            index < self.spec_total_size(),
    {
        proof {
            use_type_invariant(self);
            lemma_index_in_range(*self, x as int, y as int, z as int);
            lemma_row_in_range(self.spec_size_y(), self.spec_size_z(), y as int, z as int);
            assert(self.size_y * self.size_z <= self.size_x * (self.size_y * self.size_z))
                by (nonlinear_arith)
                requires
                    self.size_x >= 1,
                    self.size_y * self.size_z >= 0,
            ;
            assert(self.size_y * z <= self.size_y * self.size_z) by (nonlinear_arith)
                requires
                    z < self.size_z,
            ;
            assert(self.size_x * (y + self.size_y * z) <= self.size_x * (self.size_y
                * self.size_z)) by (nonlinear_arith)
                requires
                    y + self.size_y * z < self.size_y * self.size_z,
            ;
        }
        let row: usize = y as usize + (self.size_y as usize) * (z as usize);
        x as usize + (self.size_x as usize) * row
    }

    /// Coordinates of the cell with the index `grid_index`.
    pub fn pos_from_index(&self, grid_index: usize) -> (position: GridPosition)
        requires
            grid_index < self.spec_total_size(),
        ensures
            (position.x as int, position.y as int, position.z as int) == self.spec_pos_from_index(
                grid_index as int,
            ),
            self.in_bounds(position.x as int, position.y as int, position.z as int),
    {
        proof {
            use_type_invariant(self);
            lemma_index_round_trip(*self, grid_index as int);
        }
        let row = grid_index / (self.size_x as usize);
        GridPosition {
            x: (grid_index % (self.size_x as usize)) as u32,
            y: (row % (self.size_y as usize)) as u32,
            z: (row / (self.size_y as usize)) as u32,
        }
    }

    /// Index of the neighbour of the cell at `grid_position` in `direction`,
    /// if it has one.
    pub fn get_next_index_in_direction(
        &self,
        grid_position: &GridPosition,
        direction: Direction,
    ) -> (next: Option<usize>)
        requires
            self.in_bounds(grid_position.x as int, grid_position.y as int, grid_position.z as int),
        ensures
            next matches Some(n) ==> n < self.spec_total_size(),
            match next {
                Some(n) => Some(n as int),
                None => None,
            } == self.neighbor(
                self.spec_index_from_coords(
                    grid_position.x as int,
                    grid_position.y as int,
                    grid_position.z as int,
                ),
                direction,
            ),
    {
        proof {
            lemma_index_in_range(
                *self,
                grid_position.x as int,
                grid_position.y as int,
                grid_position.z as int,
            );
        }
        let x = grid_position.x;
        let y = grid_position.y;
        let z = grid_position.z;
        match direction {
            Direction::XForward => match step_forward(x, self.size_x, self.looping_x) {
                Some(nx) => Some(self.index_from_coords(nx, y, z)),
                None => None,
            },
            Direction::XBackward => match step_backward(x, self.size_x, self.looping_x) {
                Some(nx) => Some(self.index_from_coords(nx, y, z)),
                None => None,
            },
            Direction::YForward => match step_forward(y, self.size_y, self.looping_y) {
                Some(ny) => Some(self.index_from_coords(x, ny, z)),
                None => None,
            },
            Direction::YBackward => match step_backward(y, self.size_y, self.looping_y) {
                Some(ny) => Some(self.index_from_coords(x, ny, z)),
                None => None,
            },
            Direction::ZForward => match step_forward(z, self.size_z, self.looping_z) {
                Some(nz) => Some(self.index_from_coords(x, y, nz)),
                None => None,
            },
            Direction::ZBackward => match step_backward(z, self.size_z, self.looping_z) {
                Some(nz) => Some(self.index_from_coords(x, y, nz)),
                None => None,
            },
        }
    }

    /// Index of the neighbour of the cell `grid_index` in `direction`, if it
    /// has one.
    pub fn get_next_index(&self, grid_index: usize, direction: Direction) -> (next: Option<usize>)
        requires
            grid_index < self.spec_total_size(),
        ensures
            next matches Some(n) ==> n < self.spec_total_size(),
            match next {
                Some(n) => Some(n as int),
                None => None,
            } == self.neighbor(grid_index as int, direction),
    {
        proof {
            use_type_invariant(self);
            lemma_index_round_trip(*self, grid_index as int);
        }
        let position = self.pos_from_index(grid_index);
        self.get_next_index_in_direction(&position, direction)
    }
}

fn step_forward(coordinate: u32, size: u32, looping: bool) -> (next: Option<u32>)
    requires
        coordinate < size,
    ensures
        match next {
            Some(n) => Some(n as int),
            None => None,
        } == step_axis(coordinate as int, size as int, looping, true),
        next matches Some(n) ==> n < size,
{
    if coordinate + 1 < size {
        Some(coordinate + 1)
    } else if looping {
        Some(0)
    } else {
        None
    }
}

fn step_backward(coordinate: u32, size: u32, looping: bool) -> (next: Option<u32>)
    requires
        coordinate < size,
    ensures
        match next {
            Some(n) => Some(n as int),
            None => None,
        } == step_axis(coordinate as int, size as int, looping, false),
        next matches Some(n) ==> n < size,
{
    if coordinate > 0 {
        Some(coordinate - 1)
    } else if looping {
        Some(size - 1)
    } else {
        None
    }
}

proof fn lemma_row_in_range(size_y: int, size_z: int, y: int, z: int)
    requires
        0 <= y < size_y,
        0 <= z < size_z,
    ensures
        0 <= y + size_y * z < size_y * size_z,
{
    assert(size_y * z + size_y <= size_y * size_z) by (nonlinear_arith)
        requires
            0 <= z < size_z,
            0 < size_y,
    ;
    assert(0 <= size_y * z) by (nonlinear_arith)
        requires
            0 <= z,
            0 < size_y,
    ;
}

/// The index of a cell's coordinates is the index of a cell, and the
/// coordinates of that index are the same coordinates again.
pub proof fn lemma_index_in_range(grid: GridDefinition, x: int, y: int, z: int)
    requires
        grid.in_bounds(x, y, z),
    ensures
        0 <= grid.spec_index_from_coords(x, y, z) < grid.spec_total_size(),
        grid.spec_pos_from_index(grid.spec_index_from_coords(x, y, z)) == (x, y, z),
{
    let sx = grid.spec_size_x();
    let sy = grid.spec_size_y();
    let sz = grid.spec_size_z();
    let row = y + sy * z;
    lemma_row_in_range(sy, sz, y, z);
    lemma_row_in_range(sx, sy * sz, x, row);
    let index = x + sx * row;
    assert(index == row * sx + x) by (nonlinear_arith)
        requires
            index == x + sx * row,
    ;
    vstd::arithmetic::div_mod::lemma_fundamental_div_mod_converse(index, sx, row, x);
    assert(row == z * sy + y) by (nonlinear_arith)
        requires
            row == y + sy * z,
    ;
    vstd::arithmetic::div_mod::lemma_fundamental_div_mod_converse(row, sy, z, y);
}

/// The coordinates of a cell's index are the coordinates of a cell, and the
/// index of those coordinates is the same index again.
pub proof fn lemma_index_round_trip(grid: GridDefinition, index: int)
    requires
        0 <= index < grid.spec_total_size(),
    ensures
        ({
            let (x, y, z) = grid.spec_pos_from_index(index);
            &&& grid.in_bounds(x, y, z)
            &&& grid.spec_index_from_coords(x, y, z) == index
        }),
{
    let sx = grid.spec_size_x();
    let sy = grid.spec_size_y();
    let sz = grid.spec_size_z();
    assert(sx > 0 && sy > 0 && sz > 0) by (nonlinear_arith)
        requires
            0 <= index < sx * (sy * sz),
            sx >= 0,
            sy >= 0,
            sz >= 0,
    ;
    let row = index / sx;
    vstd::arithmetic::div_mod::lemma_fundamental_div_mod(index, sx);
    vstd::arithmetic::div_mod::lemma_mod_bound(index, sx);
    vstd::arithmetic::div_mod::lemma_div_pos_is_pos(index, sx);
    vstd::arithmetic::div_mod::lemma_multiply_divide_lt(index, sx, sy * sz);
    vstd::arithmetic::div_mod::lemma_fundamental_div_mod(row, sy);
    vstd::arithmetic::div_mod::lemma_mod_bound(row, sy);
    vstd::arithmetic::div_mod::lemma_div_pos_is_pos(row, sy);
    vstd::arithmetic::div_mod::lemma_multiply_divide_lt(row, sy, sz);
}

/// Neighbours are mutual: where a cell has a neighbour in a direction, that
/// neighbour is a cell of the grid, and its neighbour in the opposite
/// direction is the first cell.
pub proof fn lemma_neighbor_mutual(grid: GridDefinition, index: int, direction: Direction)
    requires
        0 <= index < grid.spec_total_size(),
    ensures
        grid.neighbor(index, direction) matches Some(next) ==> {
            &&& 0 <= next < grid.spec_total_size()
            &&& grid.neighbor(next, direction.spec_opposite()) == Some(index)
        },
{
    lemma_index_round_trip(grid, index);
    let (x, y, z) = grid.spec_pos_from_index(index);
    match grid.neighbor(index, direction) {
        Some(next) => {
            match direction {
                Direction::XForward => {
                    let nx = step_axis(x, grid.spec_size_x(), grid.spec_looping_x(), true)->0;
                    lemma_index_in_range(grid, nx, y, z);
                },
                Direction::XBackward => {
                    let nx = step_axis(x, grid.spec_size_x(), grid.spec_looping_x(), false)->0;
                    lemma_index_in_range(grid, nx, y, z);
                },
                Direction::YForward => {
                    let ny = step_axis(y, grid.spec_size_y(), grid.spec_looping_y(), true)->0;
                    lemma_index_in_range(grid, x, ny, z);
                },
                Direction::YBackward => {
                    let ny = step_axis(y, grid.spec_size_y(), grid.spec_looping_y(), false)->0;
                    lemma_index_in_range(grid, x, ny, z);
                },
                Direction::ZForward => {
                    let nz = step_axis(z, grid.spec_size_z(), grid.spec_looping_z(), true)->0;
                    lemma_index_in_range(grid, x, y, nz);
                },
                Direction::ZBackward => {
                    let nz = step_axis(z, grid.spec_size_z(), grid.spec_looping_z(), false)->0;
                    lemma_index_in_range(grid, x, y, nz);
                },
            }
        },
        None => {},
    }
}

} // verus!
