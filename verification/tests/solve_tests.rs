use path_finding::Grid;
use path_finding::GridError;
use path_finding::Heuristic;
use path_finding::NodeType;
use path_finding::Position;

/// Sum of the step costs along a stored path (goal back to start).
fn path_cost(path: &[Position]) -> usize {
    let mut total = 0;
    for pair in path.windows(2) {
        let diagonal = pair[0].x != pair[1].x && pair[0].y != pair[1].y;
        total += if diagonal { 14 } else { 10 };
    }
    total
}

#[test]
fn diagonal_scenario_five_by_five() {
    let mut grid = Grid::new(5, 5);
    grid.set_start(0, 0).unwrap();
    grid.set_goal(4, 4).unwrap();
    assert!(grid.allow_diagonal);
    assert_eq!(Ok(()), grid.solve(&Heuristic::Diagonal));
    let path = grid.path.as_ref().unwrap();
    assert_eq!(5, path.len());
    assert_eq!(Position::new(4, 4), path[0]);
    assert_eq!(Position::new(0, 0), path[path.len() - 1]);
    assert_eq!(56, path_cost(path));
    assert_eq!(56, grid.get_node_at(4, 4).unwrap().g_cost);
    assert!(grid.duration.is_some());
}

#[test]
fn manhattan_scenario_five_by_five_no_diagonal() {
    let mut grid = Grid::new(5, 5);
    grid.set_start(0, 0).unwrap();
    grid.set_goal(4, 4).unwrap();
    grid.allow_diagonal = false;
    assert_eq!(Ok(()), grid.solve(&Heuristic::Manhattan));
    let path = grid.path.as_ref().unwrap();
    assert_eq!(9, path.len());
    assert_eq!(Position::new(4, 4), path[0]);
    assert_eq!(Position::new(0, 0), path[path.len() - 1]);
    assert_eq!(80, path_cost(path));
    assert_eq!(80, grid.get_node_at(4, 4).unwrap().g_cost);
    // with diagonal movement off, every step is orthogonal
    for pair in path.windows(2) {
        assert!(pair[0].x == pair[1].x || pair[0].y == pair[1].y);
    }
}

#[test]
fn start_equals_goal_gives_zero_length_path() {
    let mut grid = Grid::new(5, 5);
    grid.set_start(2, 2).unwrap();
    grid.set_goal(2, 2).unwrap();
    assert_eq!(Ok(()), grid.solve(&Heuristic::Manhattan));
    assert_eq!(Some(vec![Position::new(2, 2)]), grid.path);
    assert_eq!(0, path_cost(grid.path.as_ref().unwrap()));
    assert_eq!(NodeType::Path, grid.get_node_at(2, 2).unwrap().node_type);
}

#[test]
fn enclosed_goal_reports_no_path_found() {
    let mut grid = Grid::new(5, 5);
    grid.set_start(0, 0).unwrap();
    grid.set_goal(2, 2).unwrap();
    for (x, y) in [(1, 1), (2, 1), (3, 1), (1, 2), (3, 2), (1, 3), (2, 3), (3, 3)] {
        grid.set_obstacle(x, y).unwrap();
    }
    assert_eq!(Err(GridError::NoPathFound), grid.solve(&Heuristic::Diagonal));
    // the goal cell is left untouched
    let goal_node = grid.get_node_at(2, 2).unwrap();
    assert_eq!(NodeType::Traversable, goal_node.node_type);
    assert_eq!(usize::MAX, goal_node.g_cost);
    assert!(goal_node.parent.is_none());
    assert!(grid.path.is_none());
    assert!(grid.duration.is_none());
}

#[test]
fn solve_without_endpoints_is_not_ready() {
    let mut grid = Grid::new(3, 3);
    assert_eq!(Err(GridError::NotReady), grid.solve(&Heuristic::Manhattan));
    grid.set_start(0, 0).unwrap();
    assert_eq!(Err(GridError::NotReady), grid.solve(&Heuristic::Manhattan));
    let mut grid2 = Grid::new(3, 3);
    grid2.set_goal(1, 1).unwrap();
    assert_eq!(Err(GridError::NotReady), grid2.solve(&Heuristic::Euclidean));
}

#[test]
fn wall_forces_a_detour() {
    let mut grid = Grid::new(3, 3);
    grid.set_start(0, 0).unwrap();
    grid.set_goal(2, 0).unwrap();
    grid.set_obstacle(1, 0).unwrap();
    grid.set_obstacle(1, 1).unwrap();
    grid.allow_diagonal = false;
    assert_eq!(Ok(()), grid.solve(&Heuristic::Manhattan));
    let path = grid.path.as_ref().unwrap();
    assert_eq!(7, path.len());
    assert_eq!(60, path_cost(path));
    assert_eq!(60, grid.get_node_at(2, 0).unwrap().g_cost);
    // the path avoids the obstacles
    for pos in path.iter() {
        assert!(!(pos.x == 1 && pos.y == 0));
        assert!(!(pos.x == 1 && pos.y == 1));
    }
}

#[test]
fn single_row_grid_minimal_cost() {
    let mut grid = Grid::new(1, 5);
    grid.set_start(0, 0).unwrap();
    grid.set_goal(4, 0).unwrap();
    assert_eq!(Ok(()), grid.solve(&Heuristic::Manhattan));
    let path = grid.path.as_ref().unwrap();
    assert_eq!(5, path.len());
    assert_eq!(40, path_cost(path));
    assert_eq!(40, grid.get_node_at(4, 0).unwrap().g_cost);
}

#[test]
fn two_by_two_single_diagonal_step() {
    let mut grid = Grid::new(2, 2);
    grid.set_start(0, 0).unwrap();
    grid.set_goal(1, 1).unwrap();
    assert_eq!(Ok(()), grid.solve(&Heuristic::Diagonal));
    let path = grid.path.as_ref().unwrap();
    assert_eq!(2, path.len());
    assert_eq!(14, path_cost(path));
    assert_eq!(14, grid.get_node_at(1, 1).unwrap().g_cost);
}

#[test]
fn euclidean_heuristic_finds_a_path() {
    let mut grid = Grid::new(5, 5);
    grid.set_start(0, 0).unwrap();
    grid.set_goal(4, 4).unwrap();
    assert_eq!(Ok(()), grid.solve(&Heuristic::Euclidean));
    let path = grid.path.as_ref().unwrap();
    assert_eq!(Position::new(4, 4), path[0]);
    assert_eq!(Position::new(0, 0), path[path.len() - 1]);
    // every step of the recorded path is a legal move
    for pair in path.windows(2) {
        let dx = (pair[0].x - pair[1].x).abs();
        let dy = (pair[0].y - pair[1].y).abs();
        assert!(dx <= 1 && dy <= 1 && (dx, dy) != (0, 0));
    }
}

#[test]
fn parent_links_walk_back_to_start() {
    let mut grid = Grid::new(5, 5);
    grid.set_start(0, 0).unwrap();
    grid.set_goal(4, 4).unwrap();
    assert_eq!(Ok(()), grid.solve(&Heuristic::Diagonal));
    // walking parent links from the goal reaches the start within
    // height * width steps and never cycles
    let mut current = Position::new(4, 4);
    let mut steps = 0;
    loop {
        let node = grid.get_node_at(current.x as usize, current.y as usize).unwrap();
        match node.parent {
            Some(parent) => {
                current = parent;
                steps += 1;
                assert!(steps <= 25);
            }
            None => break,
        }
    }
    assert_eq!(Position::new(0, 0), current);
}

#[test]
fn solved_cells_are_classified_as_path() {
    let mut grid = Grid::new(4, 4);
    grid.set_start(0, 0).unwrap();
    grid.set_goal(3, 3).unwrap();
    assert_eq!(Ok(()), grid.solve(&Heuristic::Diagonal));
    let path = grid.path.clone().unwrap();
    for y in 0..4 {
        for x in 0..4 {
            let node = grid.get_node_at(x, y).unwrap();
            let on_path = path.contains(&Position::new(x as i32, y as i32));
            assert_eq!(on_path, node.node_type == NodeType::Path);
        }
    }
}
