use maze::generate::generate_maze;
use maze::generate::generate_maze_seeded;
use maze::grid::Cell;
use maze::solve::overlay_solution;
use maze::solve::solve_maze;
use std::collections::VecDeque;

fn count_cells(grid: &Vec<Vec<Cell>>, c: Cell) -> usize {
    grid.iter().map(|row| row.iter().filter(|&&v| v == c).count()).sum()
}

fn is_adjacent(a: (usize, usize), b: (usize, usize)) -> bool {
    let dx = if a.0 >= b.0 { a.0 - b.0 } else { b.0 - a.0 };
    let dy = if a.1 >= b.1 { a.1 - b.1 } else { b.1 - a.1 };
    dx + dy == 1
}

/// Collects the coordinates of all cells holding `c`.
fn cells_of(grid: &Vec<Vec<Cell>>, c: Cell) -> Vec<(usize, usize)> {
    let mut out = Vec::new();
    for y in 0..grid.len() {
        for x in 0..grid[y].len() {
            if grid[y][x] == c {
                out.push((x, y));
            }
        }
    }
    out
}

#[test]
fn generated_border_is_wall() {
    let (grid, _end) = generate_maze(25, 25);
    assert_eq!(grid.len(), 25);
    for row in &grid {
        assert_eq!(row.len(), 25);
    }
    for y in 0..25 {
        for x in 0..25 {
            if x == 0 || y == 0 || x == 24 || y == 24 {
                assert_eq!(grid[y][x], Cell::Wall);
            }
            assert!(grid[y][x] == Cell::Wall || grid[y][x] == Cell::Path);
        }
    }
    assert_eq!(grid[1][1], Cell::Path);
}

#[test]
fn generated_maze_is_spanning_tree() {
    let (grid, _end) = generate_maze(25, 25);
    let vertices = cells_of(&grid, Cell::Path);
    assert!(vertices.contains(&(1, 1)));
    // Count adjacency edges among Path cells (right and down once each).
    let mut edges = 0;
    for &(x, y) in &vertices {
        if x + 1 < 25 && grid[y][x + 1] == Cell::Path {
            edges += 1;
        }
        if y + 1 < 25 && grid[y + 1][x] == Cell::Path {
            edges += 1;
        }
    }
    assert_eq!(edges, vertices.len() - 1);
    // Connectivity from (1, 1) by breadth-first search.
    let mut seen = vec![vec![false; 25]; 25];
    let mut queue = VecDeque::new();
    seen[1][1] = true;
    queue.push_back((1usize, 1usize));
    let mut reached = 0;
    while let Some((x, y)) = queue.pop_front() {
        reached += 1;
        let nbrs = [(x, y + 1), (x + 1, y), (x, y.wrapping_sub(1)), (x.wrapping_sub(1), y)];
        for &(nx, ny) in &nbrs {
            if nx < 25 && ny < 25 && grid[ny][nx] == Cell::Path && !seen[ny][nx] {
                seen[ny][nx] = true;
                queue.push_back((nx, ny));
            }
        }
    }
    assert_eq!(reached, vertices.len());
}

#[test]
fn generated_end_is_reachable() {
    let (mut grid, end) = generate_maze(25, 25);
    assert_eq!(grid[end.1][end.0], Cell::Path);
    let solution = solve_maze(&mut grid, (1, 1), end);
    let path = solution.expect("a generated maze always has a route to its end");
    assert!(!path.is_empty());
}

#[test]
fn solution_path_is_valid() {
    let (mut grid, end) = generate_maze(25, 25);
    let before = grid.clone();
    let path = solve_maze(&mut grid, (1, 1), end).expect("route exists");
    let cells: Vec<(usize, usize)> = path.iter().copied().collect();
    // Front of the deque is the cell just before the end; back is the start.
    assert!(is_adjacent(cells[0], end));
    assert_eq!(*cells.last().unwrap(), (1, 1));
    for w in cells.windows(2) {
        assert!(is_adjacent(w[0], w[1]));
    }
    for i in 0..cells.len() {
        for j in (i + 1)..cells.len() {
            assert_ne!(cells[i], cells[j]);
        }
        let (x, y) = cells[i];
        assert_ne!(cells[i], end);
        assert_eq!(before[y][x], Cell::Path);
        assert_eq!(grid[y][x], Cell::Visited);
    }
}

#[test]
fn resolving_a_solved_grid_changes_nothing() {
    let (mut grid, end) = generate_maze(25, 25);
    solve_maze(&mut grid, (1, 1), end).expect("route exists");
    let solved = grid.clone();
    // The start is now Visited: the second run must treat it as explored,
    // touch no cell, and find nothing.
    let second = solve_maze(&mut grid, (1, 1), end);
    assert!(second.is_none());
    assert_eq!(grid, solved);
}

#[test]
fn solving_twice_gives_identical_paths() {
    let (grid, end) = generate_maze(25, 25);
    let mut first = grid.clone();
    let mut second = grid.clone();
    let p1 = solve_maze(&mut first, (1, 1), end);
    let p2 = solve_maze(&mut second, (1, 1), end);
    assert_eq!(p1, p2);
    assert_eq!(first, second);
}

#[test]
fn equal_seeds_give_identical_mazes() {
    let a = generate_maze_seeded(25, 25, 42);
    let b = generate_maze_seeded(25, 25, 42);
    assert_eq!(a.0, b.0);
    assert_eq!(a.1, b.1);
}

#[test]
fn different_seeds_give_different_mazes() {
    // Would fail if the direction shuffle handed its input back unchanged:
    // generation would then be independent of the seed.
    let a = generate_maze_seeded(25, 25, 1);
    let b = generate_maze_seeded(25, 25, 2);
    assert_ne!(a.0, b.0);
}

#[test]
fn five_by_five_scenario() {
    let (grid, end) = generate_maze_seeded(5, 5, 7);
    assert_eq!(grid[1][1], Cell::Path);
    for y in 0..5 {
        for x in 0..5 {
            if x == 0 || y == 0 || x == 4 || y == 4 {
                assert_eq!(grid[y][x], Cell::Wall);
            }
        }
    }
    // All four interior lattice points are carved, joined by exactly three
    // midpoints: a spanning tree over the lattice.
    for &(x, y) in &[(1, 1), (3, 1), (1, 3), (3, 3)] {
        assert_eq!(grid[y][x], Cell::Path);
    }
    assert_eq!(grid[2][2], Cell::Wall);
    assert_eq!(count_cells(&grid, Cell::Path), 7);
    let mut work = grid.clone();
    let path = solve_maze(&mut work, (1, 1), end).expect("route exists");
    let cells: Vec<(usize, usize)> = path.iter().copied().collect();
    assert!(is_adjacent(cells[0], end));
    assert_eq!(*cells.last().unwrap(), (1, 1));
}

#[test]
fn unreachable_end_returns_none() {
    let mut grid = vec![vec![Cell::Wall; 5]; 5];
    grid[1][1] = Cell::Path;
    grid[3][3] = Cell::Path;
    let result = solve_maze(&mut grid, (1, 1), (3, 3));
    assert!(result.is_none());
    assert_eq!(grid[1][1], Cell::Visited);
    assert_eq!(grid[3][3], Cell::Path);
}

#[test]
fn wall_start_returns_none_and_changes_nothing() {
    let mut grid = vec![vec![Cell::Wall; 5]; 5];
    grid[3][3] = Cell::Path;
    let before = grid.clone();
    let result = solve_maze(&mut grid, (1, 1), (3, 3));
    assert!(result.is_none());
    assert_eq!(grid, before);
}

#[test]
fn straight_corridor_is_walked_in_order() {
    // A single corridor along row 1: the only route is the corridor itself.
    let mut grid = vec![vec![Cell::Wall; 7]; 3];
    for x in 1..6 {
        grid[1][x] = Cell::Path;
    }
    let path = solve_maze(&mut grid, (1, 1), (5, 1)).expect("corridor is connected");
    let cells: Vec<(usize, usize)> = path.iter().copied().collect();
    assert_eq!(cells, vec![(4, 1), (3, 1), (2, 1), (1, 1)]);
    for x in 1..6 {
        assert_eq!(grid[1][x], Cell::Visited);
    }
}

#[test]
fn overlay_marks_exactly_the_path() {
    let mut grid = vec![vec![Cell::Wall; 5]; 5];
    for x in 1..4 {
        grid[1][x] = Cell::Visited;
    }
    let mut path = VecDeque::new();
    path.push_back((1usize, 1usize));
    path.push_back((2usize, 1usize));
    overlay_solution(&mut grid, &path);
    assert_eq!(grid[1][1], Cell::Solution);
    assert_eq!(grid[1][2], Cell::Solution);
    assert_eq!(grid[1][3], Cell::Visited);
    assert_eq!(grid[0][0], Cell::Wall);
}

#[test]
fn end_is_the_fixed_lattice_corner() {
    let (grid, end) = generate_maze(25, 25);
    assert_eq!(end, (23, 23));
    assert_eq!(grid[23][23], Cell::Path);
    // Non-square: the end is (width - 2, height - 2) in (x, y) order.
    let (grid2, end2) = generate_maze_seeded(9, 5, 11);
    assert_eq!(end2, (7, 3));
    assert_eq!(grid2[3][7], Cell::Path);
}

#[test]
fn carving_exhausts_the_interior_lattice() {
    let (grid, _end) = generate_maze(25, 25);
    for y in (1..24).step_by(2) {
        for x in (1..24).step_by(2) {
            assert_eq!(grid[y][x], Cell::Path);
        }
    }
}
