use gridist::agent::{Agent, AlwaysAstar, RepeatedAstar};
use gridist::distance::Distance;
use gridist::experiment::{Experiment, Verbosity};
use gridist::grid::{Grid, Measure, Point};
use gridist::instance::{Advance, Data, Datum, Instance};
use gridist::parser::grid_from_str;
use std::f64::consts::SQRT_2;

fn as_float(d: Distance) -> f64 {
    d.straight() as f64 + d.diagonal() as f64 * SQRT_2
}

const BLOCK: &str = "type octile
height 4
width 4
map
....
.TT.
.TT.
....";

const OPEN: &str = "type octile
height 4
width 4
map
....
....
....
....";

#[test]
fn always_astar() {
    let mut grid = grid_from_str(
        "type octile
height 4
width 4
map
....
.TT.
.TT.
....",
    )
    .unwrap();

    let start = Point::new(0, 0);
    let goal = Point::new(3, 3);

    let agent = AlwaysAstar::new(Distance::octile_heuristic, Distance::euclidean_heuristic);
    let mut instance = Instance::new(&mut grid, agent, Verbosity::Two);

    let results = instance.run_once(start, goal).unwrap();

    assert_eq!(results.steps, 5);
    assert_eq!(as_float(results.cost), 4.0 + SQRT_2);
    assert_eq!(results.episodes, 5);
}

#[test]
fn repeated_astar() {
    let mut grid = grid_from_str(
        "type octile
height 4
width 4
map
....
.TT.
.TT.
....",
    )
    .unwrap();

    let start = Point::new(0, 0);
    let goal = Point::new(3, 3);

    let agent = RepeatedAstar::new(Distance::octile_heuristic, Distance::euclidean_heuristic);
    let mut instance = Instance::new(&mut grid, agent, Verbosity::Two);

    let results = instance.run_once(start, goal).unwrap();

    assert_eq!(results.steps, 5);
    assert_eq!(as_float(results.cost), 4.0 + SQRT_2);
    assert_eq!(results.episodes, 2);
}

#[test]
fn repeated_astar_trials() {
    let mut grid = grid_from_str(
        "type octile
height 4
width 4
map
....
.TT.
.TT.
....",
    )
    .unwrap();

    let agent = RepeatedAstar::new(Distance::octile_heuristic, Distance::euclidean_heuristic);
    let mut instance = Instance::new(&mut grid, agent, Verbosity::Two);

    let results = instance.run_trials(98, 100, 0);

    let first = results.index(0).as_ref().unwrap();
    assert_eq!(first.steps, 4);
    assert_eq!(first.episodes, 2);

    let second = results.index(1).as_ref().unwrap();
    assert_eq!(second.steps, 3);
    assert_eq!(second.episodes, 1);

    let new_results = instance.run_trials(99, 100, 0);

    let new_result = new_results.index(0).as_ref().unwrap();

    assert_eq!(second.cost, new_result.cost);
    assert_eq!(second.steps, new_result.steps);
    assert_eq!(second.episodes, new_result.episodes);
    assert_eq!(second.expansions, new_result.expansions);
}

#[test]
fn open_ground_run_costs_three_diagonals() {
    let mut grid = grid_from_str(OPEN).unwrap();
    let agent = AlwaysAstar::new(Distance::octile_heuristic, Distance::euclidean_heuristic);
    let mut instance = Instance::new(&mut grid, agent, Verbosity::Zero);
    let results = instance.run_once(Point::new(0, 0), Point::new(3, 3)).unwrap();
    assert_eq!(results.steps, 3);
    assert_eq!(results.cost, Distance::new(0, 3));
    assert_eq!(results.episodes, 3);
}

#[test]
fn block_run_costs_four_and_a_diagonal() {
    let mut grid = grid_from_str(BLOCK).unwrap();
    let agent = RepeatedAstar::new(Distance::octile_heuristic, Distance::octile_heuristic);
    let mut instance = Instance::new(&mut grid, agent, Verbosity::Zero);
    let results = instance.run_once(Point::new(0, 0), Point::new(3, 3)).unwrap();
    assert_eq!(results.cost, Distance::new(4, 1));
    assert_eq!(results.expansions, 14);
}

#[test]
fn run_leaves_the_instance_cleared() {
    let mut grid = grid_from_str(BLOCK).unwrap();
    let agent = RepeatedAstar::new(Distance::octile_heuristic, Distance::euclidean_heuristic);
    let mut instance = Instance::new(&mut grid, agent, Verbosity::Zero);
    let results = instance.run_once(Point::new(0, 0), Point::new(3, 3)).unwrap();
    assert_eq!(results.steps, 5);
    assert_eq!(instance.location, Point::new(3, 3));
    assert_eq!(
        (instance.data.cost, instance.data.steps, instance.data.episodes, instance.data.expansions),
        (Distance::zero(), 0, 0, 0)
    );
}

#[test]
fn a_run_step_by_step() {
    let mut whole_grid = grid_from_str(BLOCK).unwrap();
    let agent = RepeatedAstar::new(Distance::octile_heuristic, Distance::euclidean_heuristic);
    let whole = Instance::new(&mut whole_grid, agent, Verbosity::Zero)
        .run_once(Point::new(0, 0), Point::new(3, 3))
        .unwrap();

    let mut grid = grid_from_str(BLOCK).unwrap();
    let agent = RepeatedAstar::new(Distance::octile_heuristic, Distance::euclidean_heuristic);
    let mut instance = Instance::new(&mut grid, agent, Verbosity::Two);
    let target = Point::new(3, 3);
    instance.begin(Point::new(0, 0));
    assert_eq!(instance.location, Point::new(0, 0));
    assert_eq!(instance.data.steps, 0);
    let mut moves = 0;
    let arrived = loop {
        let before = instance.location;
        match instance.advance(&target) {
            Advance::Moved => {
                moves += 1;
                assert_eq!(instance.data.steps, moves);
                assert!(before.neighbors().contains(&Some(instance.location)));
                assert!(instance.grid.get(&instance.location).unwrap().passable());
            }
            Advance::Arrived(datum) => break datum,
            Advance::Stopped => panic!("the agent stopped at {:?}", instance.location),
        }
    };
    assert_eq!(moves, 4);
    assert_eq!(instance.location, target);
    assert_eq!(instance.data.steps, 0);
    assert_eq!(
        (arrived.cost, arrived.steps, arrived.episodes, arrived.expansions),
        (whole.cost, whole.steps, whole.episodes, whole.expansions)
    );
    // at the target the agent has no step to offer
    assert!(matches!(instance.advance(&target), Advance::Stopped));
}

#[test]
fn always_astar_searches_once_for_every_step() {
    for seed in [1usize, 2, 3] {
        let mut grid = grid_from_str("type octile\nheight 5\nwidth 6\nmap\n......\n.TT.W.\n.T..W.\n...TW.\n.S....").unwrap();
        let agent = AlwaysAstar::new(Distance::octile_heuristic, Distance::octile_heuristic);
        let mut instance = Instance::new(&mut grid, agent, Verbosity::Zero);
        let results = instance.run_trials(0, 25, seed);
        assert_eq!(results.len(), 25);
        for i in 0..results.len() {
            if let Some(datum) = results.index(i) {
                assert!(datum.steps >= 1);
                assert_eq!(datum.episodes, datum.steps);
                assert!(datum.expansions >= 2 * datum.steps);
                assert!(datum.cost.straight() + datum.cost.diagonal() == datum.steps as u64);
            }
        }
    }
}

#[test]
fn repeated_astar_searches_no_more_than_it_steps() {
    let mut grid = grid_from_str("type octile\nheight 5\nwidth 6\nmap\n......\n.TT.W.\n.T..W.\n...TW.\n.S....").unwrap();
    let agent = RepeatedAstar::new(Distance::octile_heuristic, Distance::euclidean_heuristic);
    let mut instance = Instance::new(&mut grid, agent, Verbosity::Zero);
    let results = instance.run_trials(0, 40, 11);
    let mut arrived = 0;
    for i in 0..results.len() {
        if let Some(datum) = results.index(i) {
            arrived += 1;
            assert!(datum.steps >= 1);
            assert!(1 <= datum.episodes && datum.episodes <= datum.steps);
            assert!(datum.expansions >= datum.episodes);
        }
    }
    assert!(arrived > 0);
}

#[test]
fn run_to_where_the_agent_stands_gives_nothing() {
    let mut grid = grid_from_str(OPEN).unwrap();
    let agent = AlwaysAstar::new(Distance::octile_heuristic, Distance::euclidean_heuristic);
    let mut instance = Instance::new(&mut grid, agent, Verbosity::Zero);
    assert!(instance.run_once(Point::new(1, 1), Point::new(1, 1)).is_none());
}

#[test]
fn run_into_a_walled_target_gives_nothing() {
    let mut grid = grid_from_str("type octile\nheight 3\nwidth 5\nmap\n..W..\n..W..\n..W..").unwrap();
    let agent = RepeatedAstar::new(Distance::octile_heuristic, Distance::euclidean_heuristic);
    let mut instance = Instance::new(&mut grid, agent, Verbosity::Zero);
    assert!(instance.run_once(Point::new(1, 0), Point::new(1, 4)).is_none());
    let agent = AlwaysAstar::new(Distance::octile_heuristic, Distance::euclidean_heuristic);
    let mut instance = Instance::new(&mut grid, agent, Verbosity::Zero);
    assert!(instance.run_once(Point::new(1, 0), Point::new(1, 4)).is_none());
}

#[test]
fn trials_are_stable_under_slicing() {
    for seed in [0usize, 1, 7, 12345] {
        let mut grid = grid_from_str(BLOCK).unwrap();
        let agent = RepeatedAstar::new(Distance::octile_heuristic, Distance::euclidean_heuristic);
        let mut instance = Instance::new(&mut grid, agent, Verbosity::Zero);
        let all = instance.build_trials(0, 30, seed);
        assert_eq!(all.len(), 30);
        let tail = instance.build_trials(25, 30, seed);
        assert_eq!(tail, all[25..].to_vec());
        let one = instance.build_trials(29, 30, seed);
        assert_eq!(one, all[29..].to_vec());
        for (source, target) in all.iter() {
            assert!(source != target);
            assert!(instance.grid.get(source).unwrap().passable());
            assert!(instance.grid.get(target).unwrap().passable());
        }
    }
}

#[test]
fn trials_of_seed_zero() {
    let mut grid = grid_from_str(BLOCK).unwrap();
    let agent = RepeatedAstar::new(Distance::octile_heuristic, Distance::euclidean_heuristic);
    let mut instance = Instance::new(&mut grid, agent, Verbosity::Zero);
    let trials = instance.build_trials(98, 100, 0);
    assert_eq!(
        trials,
        vec![(Point::new(0, 0), Point::new(2, 3)), (Point::new(3, 1), Point::new(0, 1))]
    );
    assert_ne!(instance.build_trials(98, 100, 1), trials);
}

#[test]
fn statistics_are_stable_under_slicing() {
    let mut grid = grid_from_str(BLOCK).unwrap();
    let agent = AlwaysAstar::new(Distance::octile_heuristic, Distance::euclidean_heuristic);
    let mut instance = Instance::new(&mut grid, agent, Verbosity::Zero);
    let all = instance.run_trials(0, 20, 3);
    let last = instance.run_trials(19, 20, 3);
    assert_eq!(all.len(), 20);
    assert_eq!(last.len(), 1);
    let a = all.index(19).as_ref().unwrap();
    let b = last.index(0).as_ref().unwrap();
    assert_eq!((a.cost, a.steps, a.episodes, a.expansions), (b.cost, b.steps, b.episodes, b.expansions));
}

#[test]
fn statistics_tally() {
    let start = Datum::default();
    assert_eq!((start.cost, start.steps, start.episodes, start.expansions), (Distance::zero(), 0, 0, 0));
    let searched = start.searched(7).unwrap();
    assert_eq!((searched.episodes, searched.expansions), (1, 7));
    let followed = searched.searched(0).unwrap();
    assert_eq!((followed.episodes, followed.expansions), (1, 7));
    let walked = followed.walked(&Distance::new(0, 1)).unwrap().walked(&Distance::new(1, 0)).unwrap();
    assert_eq!((walked.cost, walked.steps), (Distance::new(1, 1), 2));
    let full = Datum { cost: Distance::new(u64::MAX, 0), steps: 1, episodes: usize::MAX, expansions: 1 };
    assert!(full.searched(1).is_none());
    assert!(full.searched(0).is_some());
    assert!(full.walked(&Distance::new(1, 0)).is_none());
    assert!(full.walked(&Distance::new(0, 1)).is_some());
    let counted = Datum { cost: Distance::zero(), steps: usize::MAX, episodes: 0, expansions: usize::MAX };
    assert!(counted.walked(&Distance::zero()).is_none());
    assert!(counted.searched(1).is_none());
}

#[test]
fn data_keeps_the_order() {
    let mut data = Data::new(2);
    assert_eq!(data.len(), 0);
    data.push(None);
    data.push(Some(Datum { cost: Distance::new(1, 0), steps: 1, episodes: 1, expansions: 2 }));
    assert_eq!(data.len(), 2);
    assert!(data.index(0).is_none());
    assert_eq!(data.index(1).as_ref().unwrap().expansions, 2);
}

#[test]
fn agents_step_by_step() {
    let mut grid = grid_from_str(BLOCK).unwrap();
    let target = Point::new(3, 3);
    let mut always = AlwaysAstar::new(Distance::octile_heuristic, Distance::euclidean_heuristic);
    let mut repeated = RepeatedAstar::new(Distance::octile_heuristic, Distance::euclidean_heuristic);
    // nothing is known: both plan the diagonal
    let first = always.act(&mut grid, &Point::new(0, 0), &target).unwrap();
    assert_eq!(first.action, Point::new(1, 1));
    assert!(first.expansions > 0);
    let first = repeated.act(&mut grid, &Point::new(0, 0), &target).unwrap();
    assert_eq!(first.action, Point::new(1, 1));
    assert!(first.expansions > 0);
    // the plan is followed without a search
    let second = repeated.act(&mut grid, &Point::new(1, 1), &target).unwrap();
    assert_eq!((second.action, second.expansions), (Point::new(2, 2), 0));
    // once the trees are seen the plan is dropped
    grid.look(&Point::new(2, 2));
    let third = repeated.act(&mut grid, &Point::new(2, 2), &target).unwrap();
    assert_eq!(third.action, Point::new(3, 3));
    assert_eq!(third.expansions, 0);
    grid.look(&Point::new(0, 0));
    repeated.reset();
    let again = repeated.act(&mut grid, &Point::new(0, 0), &target).unwrap();
    assert!(again.expansions > 0);
    assert!(again.action == Point::new(0, 1) || again.action == Point::new(1, 0));
    // at the target no step is left
    assert!(always.act(&mut grid, &target, &target).is_none());
    assert_eq!(always.cost(&Point::new(0, 0), &Point::new(1, 1)), Distance::new(0, 1));
}

#[test]
fn repeated_astar_replans_when_the_step_is_blocked() {
    let mut grid = grid_from_str(BLOCK).unwrap();
    let target = Point::new(3, 3);
    let mut agent = RepeatedAstar::new(Distance::octile_heuristic, Distance::euclidean_heuristic);
    let first = agent.act(&mut grid, &Point::new(0, 0), &target).unwrap();
    assert_eq!(first.action, Point::new(1, 1));
    // the next step of the plan, (2, 2), turns out to be trees
    grid.look(&Point::new(1, 1));
    let second = agent.act(&mut grid, &Point::new(0, 0), &target).unwrap();
    assert!(second.expansions > 0);
    assert!(grid.get(&second.action).unwrap().freespace());
    assert!(second.action == Point::new(0, 1) || second.action == Point::new(1, 0));
}

fn experiment_grid() -> Grid {
    grid_from_str(BLOCK).unwrap()
}

#[test]
fn single_experiment() {
    let mut experiment = Experiment::single(experiment_grid(), Point::new(0, 0), Point::new(3, 3), Verbosity::Zero);
    let data = experiment.run(AlwaysAstar::new(Distance::octile_heuristic, Distance::euclidean_heuristic));
    assert_eq!(data.len(), 1);
    let datum = data.index(0).as_ref().unwrap();
    assert_eq!((datum.steps, datum.episodes), (5, 5));
    // the grid has learnt; a second run needs fewer expansions
    let again = experiment.run(AlwaysAstar::new(Distance::octile_heuristic, Distance::euclidean_heuristic));
    assert!(again.index(0).as_ref().unwrap().expansions <= datum.expansions);
}

#[test]
fn trials_experiment() {
    let mut experiment = Experiment::trials(experiment_grid(), 98, 100, 0, Verbosity::Zero);
    let data = experiment.run(RepeatedAstar::new(Distance::octile_heuristic, Distance::euclidean_heuristic));
    assert_eq!(data.len(), 2);
    assert_eq!(data.index(0).as_ref().unwrap().steps, 4);
    assert_eq!(data.index(1).as_ref().unwrap().steps, 3);
    let empty = Experiment::trials(experiment_grid(), 5, 5, 0, Verbosity::Zero)
        .run(RepeatedAstar::new(Distance::octile_heuristic, Distance::euclidean_heuristic));
    assert_eq!(empty.len(), 0);
}

#[test]
fn verbosity_levels() {
    assert_eq!(Verbosity::new(0), Verbosity::Zero);
    assert_eq!(Verbosity::new(1), Verbosity::One);
    assert_eq!(Verbosity::new(2), Verbosity::Two);
    assert_eq!(Verbosity::new(255), Verbosity::Two);
    assert!(Verbosity::Two >= Verbosity::One);
}
