use path_finding::Grid;
use path_finding::GridError;
use path_finding::Node;
use path_finding::NodeType;
use path_finding::Position;

#[test]
fn correct_index_square() {
    let grid = Grid::new(5, 5);
    assert_eq!(1, grid.get_index_from_pos(&Position::new(1, 0)));
    assert_eq!(5, grid.get_index_from_pos(&Position::new(0, 1)));
    assert_eq!(24, grid.get_index_from_pos(&Position::new(4, 4)));
}

#[test]
fn correct_index_rectangle() {
    let grid = Grid::new(3, 4);
    assert_eq!(1, grid.get_index_from_pos(&Position::new(1, 0)));
    assert_eq!(5, grid.get_index_from_pos(&Position::new(1, 1)));
    assert_eq!(9, grid.get_index_from_pos(&Position::new(1, 2)));
}

#[test]
fn valid_positions() {
    let grid = Grid::new(5, 5);
    assert_eq!(true, grid.is_valid_pos(&Position::new(1, 0)));
    assert_eq!(true, grid.is_valid_pos(&Position::new(4, 4)));
    assert_eq!(false, grid.is_valid_pos(&Position::new(-1, 0)));
    assert_eq!(false, grid.is_valid_pos(&Position::new(5, 4)));
    assert_eq!(false, grid.is_valid_pos(&Position::new(4, 5)));
    assert_eq!(false, grid.is_valid_pos(&Position::new(5, 5)));
}

#[test]
fn correct_pos_from_index_square() {
    let grid = Grid::new(5, 5);
    assert_eq!(Position::new(1, 0), grid.get_pos_from_index(1));
    assert_eq!(Position::new(0, 1), grid.get_pos_from_index(5));
    assert_eq!(Position::new(4, 4), grid.get_pos_from_index(24));
}

#[test]
fn correct_pos_from_index_rectangle() {
    let grid = Grid::new(3, 4);
    assert_eq!(Position::new(1, 0), grid.get_pos_from_index(1));
    assert_eq!(Position::new(1, 1), grid.get_pos_from_index(5));
    assert_eq!(Position::new(1, 2), grid.get_pos_from_index(9));

    let grid = Grid::new(5, 10);
    assert_eq!(Position::new(2, 2), grid.get_pos_from_index(22));
    assert_eq!(Position::new(5, 3), grid.get_pos_from_index(35));
    assert_eq!(Position::new(6, 4), grid.get_pos_from_index(46));
}

#[test]
fn correct_neighbours() {
    let grid = Grid::new(5, 5);
    assert_eq!(
        vec![Position::new(1, 0), Position::new(0, 1)],
        grid.get_neighbours(&Position::new(0, 0))
    );
    assert_eq!(
        vec![
            Position::new(2, 1),
            Position::new(0, 1),
            Position::new(1, 0),
            Position::new(1, 2),
        ],
        grid.get_neighbours(&Position::new(1, 1))
    );
}

#[test]
fn correct_neighbours_rect() {
    let grid = Grid::new(5, 10);
    assert_eq!(
        vec![Position::new(1, 0), Position::new(0, 1)],
        grid.get_neighbours(&Position::new(0, 0))
    );
    assert_eq!(
        vec![
            Position::new(2, 1),
            Position::new(0, 1),
            Position::new(1, 0),
            Position::new(1, 2),
        ],
        grid.get_neighbours(&Position::new(1, 1))
    );
}

#[test]
fn index_position_roundtrip() {
    let grid = Grid::new(3, 4);
    for y in 0..3 {
        for x in 0..4 {
            let pos = Position::new(x, y);
            let idx = grid.get_index_from_pos(&pos);
            assert_eq!(pos, grid.get_pos_from_index(idx));
        }
    }
    for idx in 0..12 {
        let pos = grid.get_pos_from_index(idx);
        assert_eq!(idx, grid.get_index_from_pos(&pos));
    }
}

#[test]
fn interior_cell_has_eight_neighbours_with_diagonal() {
    let grid = Grid::new(5, 5);
    let centre = Position::new(2, 2);
    assert_eq!(8, grid.get_neighbours_diag_cost(&centre).len());
    assert_eq!(4, grid.get_neighbours_cost(&centre).len());
}

#[test]
fn corner_cell_has_two_orthogonal_neighbours() {
    let grid = Grid::new(5, 5);
    for corner in [
        Position::new(0, 0),
        Position::new(4, 0),
        Position::new(0, 4),
        Position::new(4, 4),
    ] {
        assert_eq!(2, grid.get_neighbours_cost(&corner).len());
    }
}

#[test]
fn neighbours_stay_inside_grid() {
    let grid = Grid::new(3, 3);
    for y in 0..3 {
        for x in 0..3 {
            for (pos, _) in grid.get_neighbours_diag_cost(&Position::new(x, y)) {
                assert!(grid.is_valid_pos(&pos));
            }
        }
    }
}

#[test]
fn neighbour_costs_are_ten_and_fourteen() {
    let grid = Grid::new(5, 5);
    let centre = Position::new(2, 2);
    let pairs = grid.get_neighbours_diag_cost(&centre);
    for (pos, cost) in pairs {
        if pos.x != centre.x && pos.y != centre.y {
            assert_eq!(14, cost);
        } else {
            assert_eq!(10, cost);
        }
    }
}

#[test]
fn readiness_and_endpoint_queries() {
    let mut grid = Grid::new(4, 4);
    assert!(!grid.is_ready());
    assert_eq!(Ok(()), grid.set_start(1, 2));
    assert!(!grid.is_ready());
    assert_eq!(Ok(()), grid.set_goal(3, 3));
    assert!(grid.is_ready());
    assert!(grid.is_start(1, 2));
    assert!(!grid.is_start(2, 1));
    assert!(grid.is_goal(3, 3));
    assert!(!grid.is_goal(0, 0));
}

#[test]
fn out_of_bounds_accesses_are_rejected() {
    let mut grid = Grid::new(5, 5);
    assert_eq!(Err(GridError::OutOfBounds), grid.get_node_at(5, 0).map(|_| ()));
    assert_eq!(Err(GridError::OutOfBounds), grid.get_node_at(0, 5).map(|_| ()));
    assert_eq!(Err(GridError::OutOfBounds), grid.set_start(5, 5));
    assert_eq!(Err(GridError::OutOfBounds), grid.set_goal(0, 9));
    assert_eq!(Err(GridError::OutOfBounds), grid.set_obstacle(9, 0));
    assert!(grid.get_node_at(4, 4).is_ok());
}

#[test]
fn fresh_grid_cells_are_traversable_defaults() {
    let grid = Grid::new(2, 3);
    for y in 0..2 {
        for x in 0..3 {
            let node = grid.get_node_at(x, y).unwrap();
            assert_eq!(NodeType::Traversable, node.node_type);
            assert_eq!(usize::MAX, node.g_cost);
            assert_eq!(usize::MAX, node.h_cost);
            assert_eq!(usize::MAX, node.f_cost);
            assert!(node.parent.is_none());
        }
    }
    assert!(grid.path.is_none());
    assert!(grid.duration.is_none());
    assert!(grid.allow_diagonal);
}

#[test]
fn set_obstacle_marks_the_cell() {
    let mut grid = Grid::new(3, 3);
    assert_eq!(Ok(()), grid.set_obstacle(1, 1));
    assert_eq!(NodeType::Obstacle, grid.get_node_at(1, 1).unwrap().node_type);
    assert_eq!(NodeType::Traversable, grid.get_node_at(0, 1).unwrap().node_type);
}

#[test]
fn node_default_and_set_obstacle() {
    let mut node = Node::default();
    assert_eq!(NodeType::Traversable, node.node_type);
    assert_eq!(usize::MAX, node.g_cost);
    assert_eq!(usize::MAX, node.index);
    assert!(node.parent.is_none());
    node.set_obstacle();
    assert_eq!(NodeType::Obstacle, node.node_type);
    assert_eq!(usize::MAX, node.g_cost);
}

#[test]
fn position_new_and_add() {
    let p = Position::new(3, -2);
    assert_eq!(3, p.x);
    assert_eq!(-2, p.y);
    let q = p.add(&Position::new(-1, 1));
    assert_eq!(Position::new(2, -1), q);
}
