use crate::grid::GridDefinition;
use crate::grid::GridPosition;
use vstd::prelude::*;

verus! {

/// A cursor on a cell of the grid.
#[derive(Clone, Copy, Debug, PartialEq, Eq, Structural)]
pub struct GridCursor {
    /// Index of the cell under the cursor.
    pub node_index: usize,
    /// Coordinates of the cell under the cursor.
    pub position: GridPosition,
    /// The marker that shows the cursor, if it is shown: the viewer's name
    /// for it.
    pub marker: Option<u64>,
}

/// The cursor of the cell that the pointer is over.
#[derive(Clone, Copy, Debug, PartialEq, Eq, Structural)]
pub struct GridOverCursor(pub GridCursor);

/// What the viewer has to do when its cursor has moved.
#[derive(Clone, Copy, Debug, PartialEq, Eq, Structural)]
pub struct CursorMove {
    /// The marker to take away, if the cursor was shown.
    pub marker_to_remove: Option<u64>,
    /// Where to put the new marker.
    pub position: GridPosition,
}

impl GridOverCursor {
    /// The cursor of a generation that was just made: on the first cell,
    /// and not shown.
    pub fn new() -> (cursor: GridOverCursor)
        ensures
            cursor.0.node_index == 0,
            cursor.0.position == (GridPosition { x: 0, y: 0, z: 0 }),
            cursor.0.marker is None,
    {
        GridOverCursor(
            GridCursor { node_index: 0, position: GridPosition::new(0, 0, 0), marker: None },
        )
    }
}

/// Moves the cursor to the cell `node_index`, if it is not there: the
/// cursor takes the cell's index and coordinates and is no longer shown.
/// Says what the viewer has to do then; nothing if the cursor stays.
pub fn picking_update_grid_cursor_position(
    cursor: &mut GridCursor,
    node_index: usize,
    grid: &GridDefinition,
) -> (moved: Option<CursorMove>)
    requires
        node_index < grid.spec_total_size(),
    ensures
        match moved {
            Some(change) => {
                &&& old(cursor).node_index != node_index
                &&& final(cursor).node_index == node_index
                &&& (
                    final(cursor).position.x as int,
                    final(cursor).position.y as int,
                    final(cursor).position.z as int,
                ) == grid.spec_pos_from_index(node_index as int)
                &&& final(cursor).marker is None
                &&& change.marker_to_remove == old(cursor).marker
                &&& change.position == final(cursor).position
            },
            None => old(cursor).node_index == node_index && *final(cursor) == *old(cursor),
        },
{
    if cursor.node_index != node_index {
        let previous = cursor.marker;
        cursor.node_index = node_index;
        cursor.position = grid.pos_from_index(node_index);
        cursor.marker = None;
        Some(CursorMove { marker_to_remove: previous, position: cursor.position })
    } else {
        None
    }
}

} // verus!
