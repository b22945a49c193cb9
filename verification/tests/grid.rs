use ghx_proc_gen::grid::direction::CoordinateSystem;
use ghx_proc_gen::grid::direction::Direction;
use ghx_proc_gen::grid::GridDefinition;
use ghx_proc_gen::grid::GridPosition;

const DIRECTIONS: [Direction; 6] = [
    Direction::XForward,
    Direction::YForward,
    Direction::XBackward,
    Direction::YBackward,
    Direction::ZForward,
    Direction::ZBackward,
];

#[test]
fn directions_have_their_place_and_their_opposite() {
    for (i, direction) in DIRECTIONS.iter().enumerate() {
        assert_eq!(direction.index(), i);
        assert_eq!(Direction::from_index(i), *direction);
        assert_ne!(direction.opposite(), *direction);
        assert_eq!(direction.opposite().opposite(), *direction);
    }
    assert_eq!(Direction::XForward.opposite(), Direction::XBackward);
    assert_eq!(Direction::YBackward.opposite(), Direction::YForward);
    assert_eq!(Direction::ZForward.opposite(), Direction::ZBackward);
}

#[test]
fn the_rotation_basis_is_perpendicular_to_its_axis() {
    for axis in DIRECTIONS.iter() {
        let basis = axis.rotation_basis();
        for direction in basis.iter() {
            assert_ne!(direction, axis);
            assert_ne!(*direction, axis.opposite());
        }
        assert_eq!(basis[0].opposite(), basis[2]);
        assert_eq!(basis[1].opposite(), basis[3]);
    }
    assert_eq!(
        Direction::ZForward.rotation_basis(),
        [Direction::XForward, Direction::YForward, Direction::XBackward, Direction::YBackward]
    );
    assert_eq!(
        Direction::YForward.rotation_basis(),
        [Direction::ZForward, Direction::XForward, Direction::ZBackward, Direction::XBackward]
    );
}

#[test]
fn coordinate_systems_count_their_directions() {
    assert_eq!(CoordinateSystem::Cartesian2D.directions_count(), 4);
    assert_eq!(CoordinateSystem::Cartesian3D.directions_count(), 6);
}

#[test]
fn indices_run_along_x_then_y_then_z() {
    let grid = GridDefinition::new_cartesian_3d(4, 3, 2, false);
    assert_eq!(grid.total_size(), 24);
    assert_eq!(grid.index_from_coords(0, 0, 0), 0);
    assert_eq!(grid.index_from_coords(3, 0, 0), 3);
    assert_eq!(grid.index_from_coords(0, 1, 0), 4);
    assert_eq!(grid.index_from_coords(0, 0, 1), 12);
    assert_eq!(grid.index_from_pos(&GridPosition::new(2, 1, 1)), 2 + 4 + 12);
    assert_eq!(grid.pos_from_index(18), GridPosition { x: 2, y: 1, z: 1 });
    assert_eq!(grid.pos_from_index(23), GridPosition { x: 3, y: 2, z: 1 });
}

#[test]
fn index_and_position_are_inverse() {
    let grid = GridDefinition::new_cartesian_3d(5, 4, 3, false);
    for index in 0..grid.total_size() {
        let position = grid.pos_from_index(index);
        assert!(position.x < 5 && position.y < 4 && position.z < 3);
        assert_eq!(grid.index_from_pos(&position), index);
    }
    for z in 0..3 {
        for y in 0..4 {
            for x in 0..5 {
                let index = grid.index_from_coords(x, y, z);
                assert_eq!(grid.pos_from_index(index), GridPosition::new(x, y, z));
            }
        }
    }
}

#[test]
fn a_grid_of_two_dimensions_has_one_layer() {
    let grid = GridDefinition::new_cartesian_2d(30, 15, false);
    assert_eq!(grid.size_x(), 30);
    assert_eq!(grid.size_y(), 15);
    assert_eq!(grid.size_z(), 1);
    assert_eq!(grid.total_size(), 450);
    assert_eq!(grid.coordinate_system(), CoordinateSystem::Cartesian2D);
    assert_eq!(grid.get_next_index(7, Direction::ZForward), None);
    assert_eq!(grid.get_next_index(7, Direction::ZBackward), None);
}

#[test]
fn the_edge_of_a_grid_has_no_neighbour() {
    let grid = GridDefinition::new_cartesian_2d(3, 2, false);
    assert_eq!(grid.get_next_index(0, Direction::XForward), Some(1));
    assert_eq!(grid.get_next_index(2, Direction::XForward), None);
    assert_eq!(grid.get_next_index(0, Direction::XBackward), None);
    assert_eq!(grid.get_next_index(1, Direction::YForward), Some(4));
    assert_eq!(grid.get_next_index(4, Direction::YForward), None);
    assert_eq!(grid.get_next_index(4, Direction::YBackward), Some(1));
    assert_eq!(grid.get_next_index(1, Direction::YBackward), None);
    let position = GridPosition::new(2, 1, 0);
    assert_eq!(grid.get_next_index_in_direction(&position, Direction::XBackward), Some(4));
    assert_eq!(grid.get_next_index_in_direction(&position, Direction::XForward), None);
}

#[test]
fn a_looping_axis_goes_round() {
    let grid = GridDefinition::new_cartesian_2d(4, 1, false).with_loops(true, false, false);
    assert_eq!(grid.get_next_index(3, Direction::XForward), Some(0));
    assert_eq!(grid.get_next_index(0, Direction::XBackward), Some(3));
    assert_eq!(grid.get_next_index(0, Direction::YForward), None);
    let all = GridDefinition::new_cartesian_3d(2, 2, 2, true);
    assert_eq!(all.get_next_index(7, Direction::ZForward), Some(3));
    assert_eq!(all.get_next_index(1, Direction::YBackward), Some(3));
    let single = GridDefinition::new_cartesian_2d(1, 1, true);
    assert_eq!(single.get_next_index(0, Direction::XForward), Some(0));
    assert_eq!(single.get_next_index(0, Direction::YBackward), Some(0));
}

#[test]
fn a_grid_of_two_dimensions_does_not_loop_along_z() {
    let grid = GridDefinition::new_cartesian_2d(2, 2, true).with_loops(true, true, true);
    assert_eq!(grid.get_next_index(0, Direction::ZForward), None);
}

#[test]
fn neighbours_are_mutual() {
    let grids = [
        GridDefinition::new_cartesian_3d(3, 2, 2, false),
        GridDefinition::new_cartesian_3d(3, 2, 2, true),
        GridDefinition::new_cartesian_3d(1, 4, 2, false).with_loops(true, false, true),
    ];
    for grid in grids.iter() {
        for index in 0..grid.total_size() {
            for direction in DIRECTIONS.iter() {
                if let Some(next) = grid.get_next_index(index, *direction) {
                    assert!(next < grid.total_size());
                    assert_eq!(grid.get_next_index(next, direction.opposite()), Some(index));
                }
            }
        }
    }
}

#[test]
fn a_grid_without_cells_has_no_cell() {
    let grid = GridDefinition::new_cartesian_2d(0, 5, false);
    assert_eq!(grid.total_size(), 0);
}
