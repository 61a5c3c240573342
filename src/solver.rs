//! The decisions of the maze-solving loop: propose a route, and act on
//! whether the sampler accepted it.
use crate::maze::{grid_distance, Cell, Maze};
use crate::mcmc::Mcmc;
use crate::path::{ErgodicAndSymmetric, Path};
use vstd::prelude::*;

verus! {

/// A candidate route with where it ends and its cost.
pub struct Proposal {
    pub path: Path,
    pub end: Cell,
    pub cost: u64,
}

/// What the loop does after one acceptance test.
pub enum Step {
    /// The accepted route ends at the destination: the search is over, and
    /// the route is the one the solver now holds.
    Solved,
    /// A route was accepted that does not yet reach the destination.
    Moved,
    /// The candidate was rejected; the current route stays.
    Rejected,
}

/// A search for a route from `start` to `destination`, driven one
/// acceptance test at a time. Routes are followed through walls: a step
/// succeeds whenever it stays on the grid. The cost of a route is the grid
/// distance from its end to the destination.
pub struct Solver {
    sampler: Mcmc<Path>,
    start: Cell,
    destination: Cell,
}

impl Solver {
    pub closed spec fn spec_start(&self) -> Cell {
        self.start
    }

    pub closed spec fn spec_destination(&self) -> Cell {
        self.destination
    }

    /// The route held now.
    pub closed spec fn spec_path(&self) -> Path {
        self.sampler.spec_current()
    }

    /// The cost of the route held now.
    pub closed spec fn spec_cost(&self) -> u64 {
        self.sampler.spec_cost()
    }

    /// The end of a route followed from this search's start, and its cost.
    pub open spec fn measures(&self, maze: Maze, path: Path, end: Cell, cost: u64) -> bool {
        &&& end == maze.walk(self.spec_start(), path.moves@)
        &&& cost == grid_distance(end, self.spec_destination())
    }

    /// A search that starts from the empty route.
    pub fn new(maze: &Maze, start: Cell, destination: Cell) -> (r: Solver)
        requires
            maze.wf(),
        ensures
            r.spec_start() == start,
            r.spec_destination() == destination,
            r.spec_path().moves@ == Seq::<Option<crate::path::Move>>::empty(),
            r.spec_cost() == grid_distance(start, destination),
    {
        let cost = maze.bird_flight_distance(start, destination);
        Solver { sampler: Mcmc::new(Path::empty(), cost), start, destination }
    }

    pub fn current(&self) -> (r: &Path)
        ensures
            *r == self.spec_path(),
    {
        self.sampler.current()
    }

    /// The route held now already reaches the destination: its cost is 0.
    /// The acceptance rule divides by the current cost, so a caller asks
    /// this before proposing.
    pub fn is_solved(&self) -> (r: bool)
        ensures
            r == (self.spec_cost() == 0),
    {
        self.sampler.current_cost() == 0
    }

    /// Ends the search, handing over the route held now.
    pub fn into_current(self) -> (r: Path)
        ensures
            r == self.spec_path(),
    {
        self.sampler.into_current()
    }

    pub fn current_cost(&self) -> (r: u64)
        ensures
            r == self.spec_cost(),
    {
        self.sampler.current_cost()
    }

    /// The end of `path` followed from this search's start.
    pub fn end_of(&self, maze: &Maze, path: &Path) -> (r: Cell)
        requires
            maze.wf(),
        ensures
            r == maze.walk(self.spec_start(), path.moves@),
    {
        let trail = maze.follow_path(self.start, path);
        if trail.len() == 0 {
            assert(path.moves@ =~= Seq::<Option<crate::path::Move>>::empty());
            self.start
        } else {
            let last = trail[trail.len() - 1];
            assert(path.moves@.take(path.moves@.len() as int) == path.moves@);
            last
        }
    }

    /// A candidate proposed from the current route, measured on `maze`.
    pub fn propose(&self, maze: &Maze, rng: &mut rand::rngs::SmallRng) -> (r: Proposal)
        requires
            maze.wf(),
        ensures
            self.spec_path().proposes(r.path),
            self.measures(*maze, r.path, r.end, r.cost),
    {
        let path = self.sampler.propose(rng);
        let end = self.end_of(maze, &path);
        let cost = maze.bird_flight_distance(end, self.destination);
        Proposal { path, end, cost }
    }

    /// Acts on the outcome of the acceptance test for `p`. An accepted route
    /// becomes the current one, and ends the search where it reaches the
    /// destination; a rejected one changes nothing.
    pub fn decide(&mut self, p: Proposal, accepted: bool) -> (r: Step)
        ensures
            final(self).spec_start() == old(self).spec_start(),
            final(self).spec_destination() == old(self).spec_destination(),
            accepted ==> final(self).spec_path() == p.path && final(self).spec_cost() == p.cost,
            !accepted ==> final(self).spec_path() == old(self).spec_path()
                && final(self).spec_cost() == old(self).spec_cost(),
            r == (if !accepted {
                Step::Rejected
            } else if p.end == old(self).spec_destination() {
                Step::Solved
            } else {
                Step::Moved
            }),
    {
        let reached = p.end == self.destination;
        if !accepted {
            Step::Rejected
        } else if reached {
            self.sampler.settle(p.path, p.cost, true);
            Step::Solved
        } else {
            self.sampler.settle(p.path, p.cost, true);
            Step::Moved
        }
    }
}

} // verus!
