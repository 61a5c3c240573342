use mcmc_maze::{Cell, Maze, Mcmc, Move, Path, Solver, Step};
use rand::rngs::SmallRng;
use rand::{Rng, SeedableRng};

fn accepts(rng: &mut SmallRng, candidate_cost: u64, current_cost: u64) -> bool {
    let p = (-0.5 * candidate_cost as f64 / current_cost as f64).exp().min(1.0);
    rng.gen::<f64>() <= p
}

/// Runs the search for at most `limit` acceptance tests; returns every
/// accepted route and the solution, if one was found.
fn run(maze: &Maze, rng: &mut SmallRng, start: Cell, destination: Cell, limit: usize) -> (Vec<Vec<Option<Move>>>, Option<Path>) {
    let mut solver = Solver::new(maze, start, destination);
    let mut accepted = Vec::new();
    for _ in 0..limit {
        let p = solver.propose(maze, rng);
        let ok = accepts(rng, p.cost, solver.current_cost());
        if ok {
            accepted.push(p.path.moves.clone());
        }
        match solver.decide(p, ok) {
            Step::Solved => return (accepted, Some(solver.into_current())),
            Step::Moved | Step::Rejected => {}
        }
    }
    (accepted, None)
}

#[test]
fn two_cell_maze_is_solved_quickly() {
    let mut rng = SmallRng::seed_from_u64(42);
    let maze = Maze::new(&mut rng, 1, 2);
    let start = Cell { row: 0, col: 0 };
    let destination = Cell { row: 0, col: 1 };
    let (_, solution) = run(&maze, &mut rng, start, destination, 10_000);
    let solution = solution.expect("no solution within the step budget");
    let trail = maze.follow_path(start, &solution);
    assert_eq!(trail.last().copied().unwrap_or(start), destination);
}

#[test]
fn same_seed_gives_the_same_search() {
    let maze = Maze::new(&mut SmallRng::seed_from_u64(1), 4, 5);
    let start = Cell { row: 0, col: 0 };
    let destination = Cell { row: 3, col: 4 };
    let (a, sa) = run(&maze, &mut SmallRng::seed_from_u64(99), start, destination, 20_000);
    let (b, sb) = run(&maze, &mut SmallRng::seed_from_u64(99), start, destination, 20_000);
    assert_eq!(a, b);
    assert_eq!(sa.map(|p| p.moves), sb.map(|p| p.moves));
}

#[test]
fn solution_ends_at_the_destination() {
    let mut rng = SmallRng::seed_from_u64(8);
    let maze = Maze::new(&mut rng, 3, 3);
    let start = Cell { row: 0, col: 0 };
    let destination = Cell { row: 2, col: 2 };
    let (_, solution) = run(&maze, &mut rng, start, destination, 100_000);
    let solution = solution.expect("no solution within the step budget");
    assert_eq!(maze.follow_path(start, &solution).last(), Some(&destination));
}

#[test]
fn new_solver_starts_from_the_empty_route() {
    let maze = Maze::new(&mut SmallRng::seed_from_u64(3), 2, 3);
    let solver = Solver::new(&maze, Cell { row: 0, col: 0 }, Cell { row: 1, col: 2 });
    assert!(solver.current().moves.is_empty());
    assert_eq!(solver.current_cost(), 3);
}

#[test]
fn proposal_is_measured_from_the_start() {
    let maze = Maze::new(&mut SmallRng::seed_from_u64(3), 3, 3);
    let start = Cell { row: 1, col: 1 };
    let destination = Cell { row: 0, col: 0 };
    let solver = Solver::new(&maze, start, destination);
    let mut rng = SmallRng::seed_from_u64(4);
    for _ in 0..50 {
        let p = solver.propose(&maze, &mut rng);
        assert!(p.path.moves.len() <= 1);
        assert_eq!(p.end, maze.follow_path(start, &p.path).last().copied().unwrap_or(start));
        assert_eq!(p.cost, maze.bird_flight_distance(p.end, destination));
    }
}

#[test]
fn decide_keeps_or_replaces_the_route() {
    let maze = Maze::new(&mut SmallRng::seed_from_u64(3), 1, 3);
    let start = Cell { row: 0, col: 0 };
    let destination = Cell { row: 0, col: 2 };
    let mut solver = Solver::new(&maze, start, destination);
    let mut rng = SmallRng::seed_from_u64(10);
    let p = solver.propose(&maze, &mut rng);
    assert!(matches!(solver.decide(p, false), Step::Rejected));
    assert!(solver.current().moves.is_empty());
    assert_eq!(solver.current_cost(), 2);

    let mut east = Path::empty();
    east.moves.push(Some(Move::East));
    let one = mcmc_maze::Proposal { path: east, end: Cell { row: 0, col: 1 }, cost: 1 };
    assert!(matches!(solver.decide(one, true), Step::Moved));
    assert_eq!(solver.current().moves, vec![Some(Move::East)]);
    assert_eq!(solver.current_cost(), 1);

    let two = mcmc_maze::Proposal {
        path: Path { moves: vec![Some(Move::East), Some(Move::East)] },
        end: destination,
        cost: 0,
    };
    assert!(matches!(solver.decide(two, true), Step::Solved));
    assert_eq!(solver.into_current().moves, vec![Some(Move::East), Some(Move::East)]);
}

#[test]
fn sampler_settles_only_accepted_candidates() {
    let mut mcmc = Mcmc::new(Path::empty(), 5);
    let mut rng = SmallRng::seed_from_u64(12);
    let c = mcmc.propose(&mut rng);
    assert!(!mcmc.settle(c, 2, false));
    assert_eq!(mcmc.current_cost(), 5);
    assert!(mcmc.current().moves.is_empty());
    let d = Path { moves: vec![None] };
    assert!(mcmc.settle(d, 2, true));
    assert_eq!(mcmc.current_cost(), 2);
    assert_eq!(mcmc.into_current().moves, vec![None]);
}

#[test]
fn search_from_the_destination_is_already_solved() {
    let maze = Maze::new(&mut SmallRng::seed_from_u64(5), 3, 3);
    let cell = Cell { row: 1, col: 1 };
    let solver = Solver::new(&maze, cell, cell);
    assert!(solver.is_solved());
    assert!(solver.into_current().moves.is_empty());
    let other = Solver::new(&maze, cell, Cell { row: 0, col: 1 });
    assert!(!other.is_solved());
}
