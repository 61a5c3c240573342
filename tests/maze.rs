use mcmc_maze::{Cell, Maze, Move, Path};
use rand::rngs::SmallRng;
use rand::SeedableRng;
use std::collections::VecDeque;

fn seeded(seed: u64) -> SmallRng {
    SmallRng::seed_from_u64(seed)
}

fn edge_count(maze: &Maze) -> usize {
    let total: usize = maze.cells().iter().map(|c| maze.edges(*c).len()).sum();
    total / 2
}

fn all_reachable(maze: &Maze, from: Cell) -> bool {
    let n = (maze.rows() * maze.cols()) as usize;
    let mut seen = vec![false; n];
    let mut queue = VecDeque::new();
    seen[maze.index_for_cell(from)] = true;
    queue.push_back(from);
    while let Some(c) = queue.pop_front() {
        for d in maze.edges(c) {
            let i = maze.index_for_cell(d);
            if !seen[i] {
                seen[i] = true;
                queue.push_back(d);
            }
        }
    }
    seen.iter().all(|s| *s)
}

#[test]
fn cell_to_index_and_back() {
    let rows = 256;
    let cols = 128;
    let maze = Maze::new(&mut seeded(7), rows, cols);
    for row in 0..rows {
        for col in 0..cols {
            let cell = Cell { row, col };
            let idx = maze.index_for_cell(cell);
            let cell2 = maze.cell_for_index(idx as u32);
            assert_eq!(cell, cell2);
        }
    }
}

#[test]
fn index_is_row_major() {
    let maze = Maze::new(&mut seeded(1), 3, 4);
    assert_eq!(maze.index_for_cell(Cell { row: 0, col: 0 }), 0);
    assert_eq!(maze.index_for_cell(Cell { row: 1, col: 2 }), 6);
    assert_eq!(maze.index_for_cell(Cell { row: 2, col: 3 }), 11);
    assert_eq!(maze.cell_for_index(7), Cell { row: 1, col: 3 });
}

#[test]
fn generated_mazes_are_spanning_trees() {
    for (seed, rows, cols) in [(1u64, 1u32, 1u32), (2, 1, 7), (3, 6, 1), (4, 5, 5), (5, 15, 30), (6, 2, 9)] {
        let maze = Maze::new(&mut seeded(seed), rows, cols);
        assert_eq!(maze.rows(), rows);
        assert_eq!(maze.cols(), cols);
        assert_eq!(edge_count(&maze), (rows * cols - 1) as usize);
        assert!(all_reachable(&maze, Cell { row: 0, col: 0 }));
    }
}

#[test]
fn single_cell_maze_has_no_edges() {
    let maze = Maze::new(&mut seeded(3), 1, 1);
    assert!(maze.edges(Cell { row: 0, col: 0 }).is_empty());
    assert!(maze.neighbors(Cell { row: 0, col: 0 }).is_empty());
}

#[test]
fn degree_at_most_four_and_edges_are_neighbors() {
    let maze = Maze::new(&mut seeded(11), 12, 13);
    for c in maze.cells() {
        let edges = maze.edges(c);
        assert!(edges.len() <= 4);
        let around = maze.neighbors(c);
        for e in edges {
            assert!(around.contains(&e));
            assert!(maze.is_edge_between(c, e));
            assert!(maze.is_edge_between(e, c));
        }
    }
}

#[test]
fn chain_maze_joins_consecutive_cells() {
    let maze = Maze::new(&mut seeded(9), 1, 5);
    for col in 0..4 {
        assert!(maze.is_edge_between(Cell { row: 0, col }, Cell { row: 0, col: col + 1 }));
    }
    assert!(!maze.is_edge_between(Cell { row: 0, col: 0 }, Cell { row: 0, col: 2 }));
}

#[test]
fn cells_are_listed_in_row_major_order() {
    let maze = Maze::new(&mut seeded(2), 2, 3);
    let cells = maze.cells();
    assert_eq!(
        cells,
        vec![
            Cell { row: 0, col: 0 },
            Cell { row: 0, col: 1 },
            Cell { row: 0, col: 2 },
            Cell { row: 1, col: 0 },
            Cell { row: 1, col: 1 },
            Cell { row: 1, col: 2 },
        ]
    );
}

#[test]
fn neighbors_respect_the_grid_bounds() {
    let maze = Maze::new(&mut seeded(4), 3, 3);
    assert_eq!(
        maze.neighbors(Cell { row: 0, col: 0 }),
        vec![Cell { row: 0, col: 1 }, Cell { row: 1, col: 0 }]
    );
    assert_eq!(
        maze.neighbors(Cell { row: 1, col: 1 }),
        vec![
            Cell { row: 0, col: 1 },
            Cell { row: 1, col: 2 },
            Cell { row: 2, col: 1 },
            Cell { row: 1, col: 0 },
        ]
    );
    assert_eq!(maze.north(Cell { row: 0, col: 2 }), None);
    assert_eq!(maze.east(Cell { row: 1, col: 2 }), None);
    assert_eq!(maze.south(Cell { row: 2, col: 0 }), None);
    assert_eq!(maze.west(Cell { row: 2, col: 0 }), None);
    assert_eq!(maze.south(Cell { row: 0, col: 0 }), Some(Cell { row: 1, col: 0 }));
}

#[test]
fn follow_path_crosses_walls_and_stops_at_the_border() {
    let maze = Maze::new(&mut seeded(5), 3, 3);
    let path = Path {
        moves: vec![Some(Move::North), Some(Move::East), Some(Move::East), Some(Move::East), None, Some(Move::South)],
    };
    let trail = maze.follow_path(Cell { row: 0, col: 0 }, &path);
    assert_eq!(
        trail,
        vec![
            Cell { row: 0, col: 0 },
            Cell { row: 0, col: 1 },
            Cell { row: 0, col: 2 },
            Cell { row: 0, col: 2 },
            Cell { row: 0, col: 2 },
            Cell { row: 1, col: 2 },
        ]
    );
    // Every grid step succeeds, passage or not.
    let across = Path { moves: vec![Some(Move::East), Some(Move::East), Some(Move::South), Some(Move::South)] };
    assert_eq!(
        maze.follow_path(Cell { row: 0, col: 0 }, &across).last(),
        Some(&Cell { row: 2, col: 2 })
    );
}

#[test]
fn distance_counts_grid_steps() {
    let maze = Maze::new(&mut seeded(6), 4, 4);
    assert_eq!(maze.bird_flight_distance(Cell { row: 0, col: 0 }, Cell { row: 3, col: 2 }), 5);
    assert_eq!(maze.bird_flight_distance(Cell { row: 3, col: 1 }, Cell { row: 0, col: 3 }), 5);
    assert_eq!(maze.bird_flight_distance(Cell { row: 2, col: 2 }, Cell { row: 2, col: 2 }), 0);
}

#[test]
fn empty_path_from_a_cell_to_itself_costs_nothing() {
    let maze = Maze::new(&mut seeded(8), 3, 3);
    let cell = Cell { row: 1, col: 2 };
    let trail = maze.follow_path(cell, &Path { moves: vec![] });
    assert!(trail.is_empty());
    let end = trail.last().copied().unwrap_or(cell);
    assert_eq!(maze.bird_flight_distance(end, cell), 0);
}

#[test]
fn same_seed_gives_the_same_maze() {
    let a = Maze::new(&mut seeded(21), 6, 7);
    let b = Maze::new(&mut seeded(21), 6, 7);
    for c in a.cells() {
        assert_eq!(a.edges(c), b.edges(c));
    }
}

#[test]
fn follow_path_stays_on_the_grid() {
    let maze = Maze::new(&mut SmallRng::seed_from_u64(13), 2, 3);
    let path = Path {
        moves: vec![Some(Move::South), Some(Move::South), Some(Move::West), Some(Move::East), Some(Move::East), Some(Move::East), Some(Move::North), Some(Move::North)],
    };
    for c in maze.follow_path(Cell { row: 0, col: 0 }, &path) {
        assert!(c.row < 2 && c.col < 3);
    }
}

#[test]
fn column_maze_joins_consecutive_cells() {
    let maze = Maze::new(&mut seeded(14), 6, 1);
    for row in 0..5 {
        assert!(maze.is_edge_between(Cell { row, col: 0 }, Cell { row: row + 1, col: 0 }));
    }
}
