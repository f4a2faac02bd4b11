//! An experiment: a grid, and either a run of seeded trials or one fixed pair
//! of points.

use crate::agent::Agent;
use crate::grid::{Grid, Point};
use crate::instance::{from_index, run, spent_on_trials, trials_of, trials_run, Data, Instance};
use vstd::prelude::*;

verus! {

/// How much the program says while it runs.
#[derive(Clone, Copy, Debug, PartialEq, PartialOrd)]
pub enum Verbosity {
    Zero,
    One,
    Two,
}

impl Verbosity {
    /// The level for a number: 0, 1, and `Two` for everything above.
    pub fn new(value: u8) -> (level: Verbosity)
        ensures
            level == match value {
                0 => Verbosity::Zero,
                1 => Verbosity::One,
                _ => Verbosity::Two,
            },
    {
        match value {
            0 => Verbosity::Zero,
            1 => Verbosity::One,
            _ => Verbosity::Two,
        }
    }
}

/// The trials of an experiment: their numbers and the seed.
struct RandomTrialData {
    start: usize,
    end: usize,
    seed: usize,
}

/// The two ends of a single run.
struct PointPair {
    source: Point,
    target: Point,
}

enum Configuration {
    Trials(RandomTrialData),
    Single(PointPair),
}

/// A grid and what is to be run on it.
pub struct Experiment {
    grid: Grid,
    config: Configuration,
    verbosity: Verbosity,
}

impl Experiment {
    /// The grid of the experiment.
    pub closed spec fn grid(&self) -> Grid {
        self.grid
    }

    /// How much is to be said while the experiment runs.
    pub closed spec fn verbosity(&self) -> Verbosity {
        self.verbosity
    }

    /// The first trial, the trial after the last, and the seed, where the
    /// experiment is a run of trials.
    pub closed spec fn trial_range(&self) -> Option<(usize, usize, usize)> {
        match self.config {
            Configuration::Trials(trials) => Some((trials.start, trials.end, trials.seed)),
            Configuration::Single(_) => None,
        }
    }

    /// The source and the target, where the experiment is a single run.
    pub closed spec fn pair(&self) -> Option<(Point, Point)> {
        match self.config {
            Configuration::Trials(_) => None,
            Configuration::Single(pair) => Some((pair.source, pair.target)),
        }
    }

    /// Whether the experiment can be run with `agent`: the grid is in order
    /// and small enough to be searched; for trials, it has a tile in its
    /// first row, the trials' numbers are in order and the agent can plan a
    /// way to every tile; for a single run, the source is a tile and the
    /// agent can plan a way to the target.
    pub open spec fn can_run<A: Agent>(&self, agent: &A) -> bool {
        &&& self.grid().wf()
        &&& self.grid().searchable()
        &&& self.trial_range() is Some || self.pair() is Some
        &&& self.trial_range() matches Some(range) ==> {
            &&& self.grid().rows().len() > 0
            &&& self.grid().rows()[0].len() > 0
            &&& range.0 <= range.1
            &&& forall|goal: Point| #[trigger]
                self.grid().contains(goal) ==> agent.ready(&self.grid(), goal)
        }
        &&& self.pair() matches Some(pair) ==> {
            &&& self.grid().contains(pair.0)
            &&& agent.ready(&self.grid(), pair.1)
        }
    }

    /// The experiment that runs, on `grid`, the trials numbered from `start`
    /// up to, not including, `end` of those that `seed` gives.
    pub fn trials(grid: Grid, start: usize, end: usize, seed: usize, verbosity: Verbosity) -> (
        experiment: Experiment
    )
        ensures
            experiment.grid() == grid,
            experiment.trial_range() == Some((start, end, seed)),
            experiment.pair() is None,
            experiment.verbosity() == verbosity,
    {
        Experiment {
            grid: grid,
            config: Configuration::Trials(RandomTrialData { start: start, end: end, seed: seed }),
            verbosity: verbosity,
        }
    }

    /// The experiment that runs once, on `grid`, from `source` to `target`.
    pub fn single(grid: Grid, source: Point, target: Point, verbosity: Verbosity) -> (
        experiment: Experiment
    )
        ensures
            experiment.grid() == grid,
            experiment.trial_range() is None,
            experiment.pair() == Some((source, target)),
            experiment.verbosity() == verbosity,
    {
        Experiment {
            grid: grid,
            config: Configuration::Single(PointPair { source: source, target: target }),
            verbosity: verbosity,
        }
    }

    /// Runs the experiment with `agent` and gives the statistics: one entry
    /// for each trial, or the one entry of the single run, as `trials_run`
    /// and `run` say. The experiment stays what it was, on a grid of the same
    /// terrain.
    pub fn run<A>(&mut self, agent: A) -> (data: Data) where A: Agent
        requires
            old(self).can_run(&agent),
        ensures
            final(self).trial_range() == old(self).trial_range(),
            final(self).pair() == old(self).pair(),
            final(self).verbosity() == old(self).verbosity(),
            final(self).grid().wf(),
            final(self).grid().same_terrain(&old(self).grid()),
            old(self).pair() matches Some(pair) ==> data@ == seq![
                run::<A>(
                    agent.model(),
                    old(self).grid().known(),
                    pair.0,
                    pair.1,
                    (usize::MAX - old(self).grid().episode()) as nat,
                ).0.statistics(),
            ],
            old(self).trial_range() matches Some(range) ==> data@ == trials_run::<A>(
                agent.model(),
                old(self).grid().known(),
                from_index(
                    trials_of(
                        &old(self).grid(),
                        range.2,
                        range.1 as nat,
                        (usize::MAX - old(self).grid().episode()) as nat,
                    ),
                    range.0 as nat,
                ),
                (usize::MAX - old(self).grid().episode() - spent_on_trials(
                    &old(self).grid(),
                    range.2,
                    range.1 as nat,
                    (usize::MAX - old(self).grid().episode()) as nat,
                )) as nat,
            ),
    {
        let mut instance = Instance::new(&mut self.grid, agent, self.verbosity);
        match self.config {
            Configuration::Trials(ref trials) => {
                instance.run_trials(trials.start, trials.end, trials.seed)
            },
            Configuration::Single(ref single) => {
                let mut data = Data::new(1);
                let outcome = instance.run_once(single.source, single.target);
                data.push(outcome);
                proof {
                    assert(data@ =~= seq![outcome]);
                    Grid::lemma_learned_same_terrain(&old(self).grid, &instance.grid());
                }
                data
            },
        }
    }
}

} // verus!
