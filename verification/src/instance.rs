//! Runs of an agent over the grid, and the statistics they leave.

use crate::agent::{plan_by_belief, Agent, AlwaysAstar, RepeatedAstar};
use crate::distance::Distance;
use crate::experiment::Verbosity;
use crate::grid::{
    forget_known, free_known, known_area, lemma_area_after_look, lemma_forget_after_look,
    lemma_forget_twice, look_known, walkable, Grid, Known, Point,
};
use crate::search::{estimate_of, lemma_planned_count};
use crate::random::{generator_state, sample_between, sample_outcome, seeded_generator, seeded_state};
use vstd::prelude::*;

verus! {

/// The statistics of one run: what the way cost, how many steps it had, how
/// many searches were run for it and how many nodes they expanded.
#[derive(Debug)]
pub struct Datum {
    pub cost: Distance,
    pub steps: usize,
    pub episodes: usize,
    pub expansions: usize,
}

impl Default for Datum {
    fn default() -> (datum: Datum)
        ensures
            datum == Datum::start(),
    {
        Datum { cost: Distance::zero(), steps: 0, episodes: 0, expansions: 0 }
    }
}

impl Datum {
    /// The statistics of a run that has not moved yet.
    pub open spec fn start() -> Datum {
        Datum { cost: Distance { straight: 0, diagonal: 0 }, steps: 0, episodes: 0, expansions: 0 }
    }

    /// The statistics after the agent's answer that took `expansions`
    /// expansions: an answer with expansions counts as one more search.
    /// `None` where a count would not fit.
    pub open spec fn spec_searched(&self, expansions: usize) -> Option<Datum> {
        if expansions == 0 {
            Some(*self)
        } else if self.episodes < usize::MAX && self.expansions + expansions <= usize::MAX {
            Some(
                Datum {
                    episodes: (self.episodes + 1) as usize,
                    expansions: (self.expansions + expansions) as usize,
                    ..*self
                },
            )
        } else {
            None
        }
    }

    /// The statistics after one more step that cost `price`. `None` where a
    /// count or the cost would not fit.
    pub open spec fn spec_walked(&self, price: &Distance) -> Option<Datum> {
        if self.steps < usize::MAX && self.cost.fits_with(price) {
            Some(
                Datum {
                    steps: (self.steps + 1) as usize,
                    cost: self.cost.spec_plus(price),
                    ..*self
                },
            )
        } else {
            None
        }
    }

    #[verifier::when_used_as_spec(spec_searched)]
    pub fn searched(&self, expansions: usize) -> (after: Option<Datum>)
        ensures
            after == self.spec_searched(expansions),
    {
        if expansions == 0 {
            Some(
                Datum {
                    cost: self.cost,
                    steps: self.steps,
                    episodes: self.episodes,
                    expansions: self.expansions,
                },
            )
        } else if self.episodes < usize::MAX && expansions <= usize::MAX - self.expansions {
            Some(
                Datum {
                    cost: self.cost,
                    steps: self.steps,
                    episodes: self.episodes + 1,
                    expansions: self.expansions + expansions,
                },
            )
        } else {
            None
        }
    }

    #[verifier::when_used_as_spec(spec_walked)]
    pub fn walked(&self, price: &Distance) -> (after: Option<Datum>)
        ensures
            after == self.spec_walked(price),
    {
        if self.steps == usize::MAX {
            return None;
        }
        match self.cost.checked_plus(price) {
            Some(cost) => Some(
                Datum {
                    cost: cost,
                    steps: self.steps + 1,
                    episodes: self.episodes,
                    expansions: self.expansions,
                },
            ),
            None => None,
        }
    }
}

/// How a run ended: the agent arrived, with these statistics; or it offered
/// no step; or the run was cut short, because the grid could number no more
/// searches or a count of the statistics would not fit.
pub enum Ending {
    Arrived(Datum),
    GaveUp,
    CutShort,
}

impl Ending {
    /// The statistics, where the agent arrived.
    pub open spec fn statistics(self) -> Option<Datum> {
        match self {
            Ending::Arrived(datum) => Some(datum),
            _ => None,
        }
    }
}

/// A run from `location` on, with the statistics `stats` so far and
/// `episodes` searches left to the grid: how it ends, and the agent's model,
/// what is known and the searches left at its end.
///
/// Step by step the agent decides, the answer is counted, the move is priced
/// and counted, and the grid looks around from where the move led.
pub open spec fn run_from<A: Agent>(
    model: A::Model,
    known: Seq<Seq<Known>>,
    location: Point,
    target: Point,
    stats: Datum,
    episodes: nat,
) -> (Ending, A::Model, Seq<Seq<Known>>, nat)
    decreases usize::MAX - stats.steps,
{
    if episodes == 0 {
        (Ending::CutShort, model, known, episodes)
    } else {
        let (step, next) = A::decide(model, known, location, target);
        let left = if A::searches(model, known, location, target) {
            (episodes - 1) as nat
        } else {
            episodes
        };
        match step {
            None => (Ending::GaveUp, next, known, left),
            Some(datum) => match stats.spec_searched(datum.expansions) {
                None => (Ending::CutShort, next, known, left),
                Some(searched) => match searched.spec_walked(
                    &A::price(next, location, datum.action),
                ) {
                    None => (Ending::CutShort, next, known, left),
                    Some(walked) => {
                        let seen = look_known(known, datum.action);
                        if datum.action == target {
                            (Ending::Arrived(walked), next, seen, left)
                        } else {
                            run_from::<A>(next, seen, datum.action, target, walked, left)
                        }
                    },
                },
            },
        }
    }
}

/// A whole run from `source` to `target`: the agent is reset, the grid looks
/// around from `source`, and the run goes from there.
pub open spec fn run<A: Agent>(
    model: A::Model,
    known: Seq<Seq<Known>>,
    source: Point,
    target: Point,
    episodes: nat,
) -> (Ending, A::Model, Seq<Seq<Known>>, nat) {
    run_from::<A>(
        A::blank(model),
        look_known(known, source),
        source,
        target,
        Datum::start(),
        episodes,
    )
}

/// A run that was not cut short ends the same with more searches left to the
/// grid, and leaves as many more.
pub proof fn lemma_run_with_more<A: Agent>(
    model: A::Model,
    known: Seq<Seq<Known>>,
    location: Point,
    target: Point,
    stats: Datum,
    episodes: nat,
    more: nat,
)
    requires
        episodes <= more,
        !(run_from::<A>(model, known, location, target, stats, episodes).0 is CutShort),
    ensures
        run_from::<A>(model, known, location, target, stats, more).0 == run_from::<A>(
            model,
            known,
            location,
            target,
            stats,
            episodes,
        ).0,
        run_from::<A>(model, known, location, target, stats, more).1 == run_from::<A>(
            model,
            known,
            location,
            target,
            stats,
            episodes,
        ).1,
        run_from::<A>(model, known, location, target, stats, more).2 == run_from::<A>(
            model,
            known,
            location,
            target,
            stats,
            episodes,
        ).2,
    decreases usize::MAX - stats.steps,
{
    let (step, next) = A::decide(model, known, location, target);
    if let Some(datum) = step {
        if let Some(searched) = stats.spec_searched(datum.expansions) {
            if let Some(walked) = searched.spec_walked(&A::price(next, location, datum.action)) {
                if datum.action != target {
                    let used: nat = if A::searches(model, known, location, target) {
                        1
                    } else {
                        0
                    };
                    lemma_run_with_more::<A>(
                        next,
                        look_known(known, datum.action),
                        datum.action,
                        target,
                        walked,
                        (episodes - used) as nat,
                        (more - used) as nat,
                    );
                }
            }
        }
    }
}

/// A run leaves the terrain as it was, and an agent that a reset makes what
/// a reset would have made it before.
pub proof fn lemma_run_leaves<A: Agent>(
    model: A::Model,
    known: Seq<Seq<Known>>,
    location: Point,
    target: Point,
    stats: Datum,
    episodes: nat,
)
    ensures
        forget_known(run_from::<A>(model, known, location, target, stats, episodes).2)
            == forget_known(known),
        A::blank(run_from::<A>(model, known, location, target, stats, episodes).1) == A::blank(
            model,
        ),
    decreases usize::MAX - stats.steps,
{
    if episodes != 0 {
        let (step, next) = A::decide(model, known, location, target);
        A::lemma_blank_after_deciding(model, known, location, target);
        let left = if A::searches(model, known, location, target) {
            (episodes - 1) as nat
        } else {
            episodes
        };
        if let Some(datum) = step {
            if let Some(searched) = stats.spec_searched(datum.expansions) {
                if let Some(walked) = searched.spec_walked(
                    &A::price(next, location, datum.action),
                ) {
                    lemma_forget_after_look(known, datum.action);
                    if datum.action != target {
                        lemma_run_leaves::<A>(
                            next,
                            look_known(known, datum.action),
                            datum.action,
                            target,
                            walked,
                            left,
                        );
                    }
                }
            }
        }
    }
}

/// The statistics of a run that arrives count a step at least, no more
/// searches than steps, and an expansion at least for every search; and no
/// count ever falls.
pub proof fn law_run_counts<A: Agent>(
    model: A::Model,
    known: Seq<Seq<Known>>,
    location: Point,
    target: Point,
    stats: Datum,
    episodes: nat,
)
    requires
        stats.episodes <= stats.steps,
        stats.episodes <= stats.expansions,
    ensures
        run_from::<A>(model, known, location, target, stats, episodes).0 matches Ending::Arrived(
            datum,
        ) ==> {
            &&& datum.steps > stats.steps
            &&& datum.episodes >= stats.episodes
            &&& datum.expansions >= stats.expansions
            &&& datum.episodes <= datum.steps
            &&& datum.episodes <= datum.expansions
        },
    decreases usize::MAX - stats.steps,
{
    if episodes != 0 {
        let (step, next) = A::decide(model, known, location, target);
        let left = if A::searches(model, known, location, target) {
            (episodes - 1) as nat
        } else {
            episodes
        };
        if let Some(datum) = step {
            if let Some(searched) = stats.spec_searched(datum.expansions) {
                if let Some(walked) = searched.spec_walked(
                    &A::price(next, location, datum.action),
                ) {
                    if datum.action != target {
                        law_run_counts::<A>(
                            next,
                            look_known(known, datum.action),
                            datum.action,
                            target,
                            walked,
                            left,
                        );
                    }
                }
            }
        }
    }
}

/// The agent that searches anew for every step runs one search for each step
/// of a run that arrives, and each search expands two nodes at least: where
/// the agent stands, and the target. This holds where the tiles are no more
/// than half of `usize::MAX`, as on every grid that can be searched.
pub proof fn law_one_search_per_step<H, C>(
    model: (H, C),
    known: Seq<Seq<Known>>,
    location: Point,
    target: Point,
    stats: Datum,
    episodes: nat,
) where H: Fn(&Point, &Point) -> Distance, C: Fn(&Point, &Point) -> Distance
    requires
        known_area(known) <= usize::MAX / 2,
        stats.episodes == stats.steps,
        stats.expansions >= 2 * stats.steps,
    ensures
        run_from::<AlwaysAstar<H, C>>(
            model,
            known,
            location,
            target,
            stats,
            episodes,
        ).0 matches Ending::Arrived(datum) ==> datum.episodes == datum.steps && datum.expansions
            >= 2 * datum.steps,
    decreases usize::MAX - stats.steps,
{
    if episodes != 0 {
        AlwaysAstar::<H, C>::lemma_decides(model, known, location, target);
        lemma_planned_count(
            free_known(known),
            estimate_of(model.0, target),
            location,
            target,
            known_area(known),
        );
        let plan = plan_by_belief(model.0, known, location, target);
        let (step, next) = <AlwaysAstar<H, C> as Agent>::decide(model, known, location, target);
        if let Some(datum) = step {
            assert(datum.expansions >= 2);
            if let Some(searched) = stats.spec_searched(datum.expansions) {
                if let Some(walked) = searched.spec_walked(
                    &<AlwaysAstar<H, C> as Agent>::price(next, location, datum.action),
                ) {
                    if datum.action != target {
                        lemma_area_after_look(known, datum.action);
                        law_one_search_per_step::<H, C>(
                            next,
                            look_known(known, datum.action),
                            datum.action,
                            target,
                            walked,
                            (episodes - 1) as nat,
                        );
                    }
                }
            }
        }
    }
}

/// The agent that follows its plan searches once at least in a run that
/// arrives: it starts the run without a plan. This holds where the tiles are
/// no more than half of `usize::MAX`, as on every grid that can be searched.
pub proof fn law_repeated_searches_at_first<H, C>(
    model: (H, C, Option<Seq<Point>>),
    known: Seq<Seq<Known>>,
    source: Point,
    target: Point,
    episodes: nat,
) where H: Fn(&Point, &Point) -> Distance, C: Fn(&Point, &Point) -> Distance
    requires
        known_area(known) <= usize::MAX / 2,
    ensures
        run::<RepeatedAstar<H, C>>(model, known, source, target, episodes).0 matches Ending::Arrived(
            datum,
        ) ==> 1 <= datum.episodes <= datum.steps && datum.episodes <= datum.expansions,
{
    let blank = <RepeatedAstar<H, C> as Agent>::blank(model);
    let seen = look_known(known, source);
    RepeatedAstar::<H, C>::lemma_decides(model, known, source, target);
    RepeatedAstar::<H, C>::lemma_decides(blank, seen, source, target);
    lemma_area_after_look(known, source);
    lemma_planned_count(
        free_known(seen),
        estimate_of(blank.0, target),
        source,
        target,
        known_area(seen),
    );
    law_run_counts::<RepeatedAstar<H, C>>(blank, seen, source, target, Datum::start(), episodes);
    if episodes != 0 {
        let (step, next) = <RepeatedAstar<H, C> as Agent>::decide(blank, seen, source, target);
        if let Some(datum) = step {
            assert(datum.expansions >= 1);
            if let Some(searched) = Datum::start().spec_searched(datum.expansions) {
                if let Some(walked) = searched.spec_walked(
                    &<RepeatedAstar<H, C> as Agent>::price(next, source, datum.action),
                ) {
                    if datum.action != target {
                        law_run_counts::<RepeatedAstar<H, C>>(
                            next,
                            look_known(seen, datum.action),
                            datum.action,
                            target,
                            walked,
                            (episodes - 1) as nat,
                        );
                    }
                }
            }
        }
    }
}

/// The agent's model, what is known and the searches left before the run
/// for the pair numbered `index`.
pub open spec fn before_trial<A: Agent>(
    model: A::Model,
    known: Seq<Seq<Known>>,
    pairs: Seq<(Point, Point)>,
    episodes: nat,
    index: nat,
) -> (A::Model, Seq<Seq<Known>>, nat)
    decreases index,
{
    if index == 0 || pairs.len() == 0 {
        (model, known, episodes)
    } else {
        let end = run::<A>(model, forget_known(known), pairs[0].0, pairs[0].1, episodes);
        before_trial::<A>(
            end.1,
            end.2,
            pairs.subrange(1, pairs.len() as int),
            end.3,
            (index - 1) as nat,
        )
    }
}

/// How the run for the pair numbered `index` ends.
pub open spec fn trial_ending<A: Agent>(
    model: A::Model,
    known: Seq<Seq<Known>>,
    pairs: Seq<(Point, Point)>,
    episodes: nat,
    index: nat,
) -> Ending {
    let before = before_trial::<A>(model, known, pairs, episodes, index);
    run::<A>(
        before.0,
        forget_known(before.1),
        pairs[index as int].0,
        pairs[index as int].1,
        before.2,
    ).0
}

/// The outcomes of the runs are the statistics of their endings; and before
/// every run the terrain is what it was at first, and a reset makes the agent
/// what it would have made it at first.
pub proof fn lemma_trial_entry<A: Agent>(
    model: A::Model,
    known: Seq<Seq<Known>>,
    pairs: Seq<(Point, Point)>,
    episodes: nat,
    index: nat,
)
    requires
        index < pairs.len(),
    ensures
        trials_run::<A>(model, known, pairs, episodes).len() == pairs.len(),
        trials_run::<A>(model, known, pairs, episodes)[index as int] == trial_ending::<A>(
            model,
            known,
            pairs,
            episodes,
            index,
        ).statistics(),
        forget_known(before_trial::<A>(model, known, pairs, episodes, index).1) == forget_known(
            known,
        ),
        A::blank(before_trial::<A>(model, known, pairs, episodes, index).0) == A::blank(model),
    decreases pairs.len(),
{
    lemma_trials_run_length::<A>(model, known, pairs, episodes);
    if index > 0 {
        let end = run::<A>(model, forget_known(known), pairs[0].0, pairs[0].1, episodes);
        let rest = pairs.subrange(1, pairs.len() as int);
        lemma_trial_entry::<A>(end.1, end.2, rest, end.3, (index - 1) as nat);
        lemma_run_leaves::<A>(
            A::blank(model),
            look_known(forget_known(known), pairs[0].0),
            pairs[0].0,
            pairs[0].1,
            Datum::start(),
            episodes,
        );
        lemma_forget_after_look(forget_known(known), pairs[0].0);
        lemma_forget_twice(known);
        A::lemma_blank_after_deciding(model, known, pairs[0].0, pairs[0].1);
        assert(rest[index - 1] == pairs[index as int]);
    }
}

/// There is an outcome for every pair.
pub proof fn lemma_trials_run_length<A: Agent>(
    model: A::Model,
    known: Seq<Seq<Known>>,
    pairs: Seq<(Point, Point)>,
    episodes: nat,
)
    ensures
        trials_run::<A>(model, known, pairs, episodes).len() == pairs.len(),
    decreases pairs.len(),
{
    if pairs.len() > 0 {
        let end = run::<A>(model, forget_known(known), pairs[0].0, pairs[0].1, episodes);
        lemma_trials_run_length::<A>(end.1, end.2, pairs.subrange(1, pairs.len() as int), end.3);
    }
}

/// A trial's pair decides its statistics: two runs for one pair give the same
/// outcome, whatever was believed or planned before and however many searches
/// the grid has left, where the terrain is the same, a reset makes the two
/// agents the same, and neither run is cut short.
pub proof fn law_statistics_by_pair<A: Agent>(
    whole_model: A::Model,
    whole_known: Seq<Seq<Known>>,
    whole_pairs: Seq<(Point, Point)>,
    whole_episodes: nat,
    whole_index: nat,
    part_model: A::Model,
    part_known: Seq<Seq<Known>>,
    part_pairs: Seq<(Point, Point)>,
    part_episodes: nat,
    part_index: nat,
)
    requires
        whole_index < whole_pairs.len(),
        part_index < part_pairs.len(),
        whole_pairs[whole_index as int] == part_pairs[part_index as int],
        forget_known(whole_known) == forget_known(part_known),
        A::blank(whole_model) == A::blank(part_model),
        !(trial_ending::<A>(whole_model, whole_known, whole_pairs, whole_episodes, whole_index)
            is CutShort),
        !(trial_ending::<A>(part_model, part_known, part_pairs, part_episodes, part_index)
            is CutShort),
    ensures
        trials_run::<A>(whole_model, whole_known, whole_pairs, whole_episodes)[whole_index as int]
            == trials_run::<A>(part_model, part_known, part_pairs, part_episodes)[part_index as int],
{
    lemma_trial_entry::<A>(whole_model, whole_known, whole_pairs, whole_episodes, whole_index);
    lemma_trial_entry::<A>(part_model, part_known, part_pairs, part_episodes, part_index);
    let whole = before_trial::<A>(
        whole_model,
        whole_known,
        whole_pairs,
        whole_episodes,
        whole_index,
    );
    let part = before_trial::<A>(part_model, part_known, part_pairs, part_episodes, part_index);
    let pair = whole_pairs[whole_index as int];
    let seen = look_known(forget_known(whole.1), pair.0);
    assert(seen == look_known(forget_known(part.1), pair.0));
    if whole.2 <= part.2 {
        lemma_run_with_more::<A>(
            A::blank(whole.0),
            seen,
            pair.0,
            pair.1,
            Datum::start(),
            whole.2,
            part.2,
        );
    } else {
        lemma_run_with_more::<A>(
            A::blank(part.0),
            seen,
            pair.0,
            pair.1,
            Datum::start(),
            part.2,
            whole.2,
        );
    }
}

/// A trial's number and the seed decide its statistics: running the trials
/// from `start` up to `end` gives, for each, what running the trials from 0
/// up to `end` gives for the trial of that number. This holds whatever the
/// two grids believe, whatever the two agents have planned and however many
/// searches the grids have run, where the terrain is the same, a reset makes
/// the two agents the same, neither generation ran out of attempts and
/// neither run of the trial is cut short.
pub proof fn law_run_trials_by_number<A: Agent>(
    whole: &Grid,
    whole_model: A::Model,
    whole_attempts: nat,
    whole_episodes: nat,
    part: &Grid,
    part_model: A::Model,
    part_attempts: nat,
    part_episodes: nat,
    seed: usize,
    start: nat,
    end: nat,
    index: nat,
)
    requires
        part.same_terrain(whole),
        A::blank(whole_model) == A::blank(part_model),
        start <= end,
        index < end - start,
        trials_of(whole, seed, end, whole_attempts).len() == end,
        trials_of(part, seed, end, part_attempts).len() == end,
        !(trial_ending::<A>(
            whole_model,
            whole.known(),
            from_index(trials_of(whole, seed, end, whole_attempts), 0),
            whole_episodes,
            start + index,
        ) is CutShort),
        !(trial_ending::<A>(
            part_model,
            part.known(),
            from_index(trials_of(part, seed, end, part_attempts), start),
            part_episodes,
            index,
        ) is CutShort),
    ensures
        trials_run::<A>(
            part_model,
            part.known(),
            from_index(trials_of(part, seed, end, part_attempts), start),
            part_episodes,
        )[index as int] == trials_run::<A>(
            whole_model,
            whole.known(),
            from_index(trials_of(whole, seed, end, whole_attempts), 0),
            whole_episodes,
        )[(start + index) as int],
{
    law_trials_by_number(whole, part, seed, start, end, whole_attempts, part_attempts);
    whole.lemma_same_terrain_forgotten(part);
    let whole_pairs = from_index(trials_of(whole, seed, end, whole_attempts), 0);
    let part_pairs = from_index(trials_of(part, seed, end, part_attempts), start);
    assert(part_pairs[index as int] == whole_pairs[(start + index) as int]);
    law_statistics_by_pair::<A>(
        whole_model,
        whole.known(),
        whole_pairs,
        whole_episodes,
        start + index,
        part_model,
        part.known(),
        part_pairs,
        part_episodes,
        index,
    );
}

/// The statistics of a run of trials, one entry for each trial; `None` where
/// the agent did not arrive.
#[derive(Debug)]
pub struct Data(Vec<Option<Datum>>);

impl View for Data {
    type V = Seq<Option<Datum>>;

    closed spec fn view(&self) -> Seq<Option<Datum>> {
        self.0@
    }
}

impl Default for Data {
    fn default() -> (data: Data)
        ensures
            data@.len() == 0,
    {
        Data(Vec::new())
    }
}

impl Data {
    /// An empty record with room for `capacity` trials.
    pub fn new(capacity: usize) -> (data: Data)
        ensures
            data@.len() == 0,
    {
        Data(Vec::with_capacity(capacity))
    }

    /// Adds the outcome of one more trial.
    pub fn push(&mut self, datum: Option<Datum>)
        ensures
            final(self)@ == old(self)@.push(datum),
    {
        self.0.push(datum);
    }

    /// The number of trials recorded.
    pub fn len(&self) -> (n: usize)
        ensures
            n == self@.len(),
    {
        self.0.len()
    }

    /// The outcome of trial `index`.
    pub fn index(&self, index: usize) -> (datum: &Option<Datum>)
        requires
            index < self@.len(),
        ensures
            *datum == self@[index as int],
    {
        &self.0[index]
    }
}

/// The pair of points that a generator holding `state` proposes for a grid
/// of the given height and width, and what the generator holds afterwards:
/// source row, source column, target row, target column, sampled in this
/// order.
pub open spec fn proposed(state: Seq<u64>, height: usize, width: usize) -> (
    (Point, Point),
    Seq<u64>,
) {
    let source_y = sample_outcome(state, 0, height as u64);
    let source_x = sample_outcome(source_y.1, 0, width as u64);
    let target_y = sample_outcome(source_x.1, 0, height as u64);
    let target_x = sample_outcome(target_y.1, 0, width as u64);
    (
        (
            Point { y: source_y.0 as usize, x: source_x.0 as usize },
            Point { y: target_y.0 as usize, x: target_x.0 as usize },
        ),
        target_x.1,
    )
}

/// Whether a proposed pair makes a trial: two different tiles of ground with a
/// way over ground between them.
pub open spec fn accepts(grid: &Grid, pair: (Point, Point)) -> bool {
    &&& pair.0 != pair.1
    &&& grid.contains(pair.0)
    &&& grid.contains(pair.1)
    &&& walkable()(grid.at(pair.0))
    &&& walkable()(grid.at(pair.1))
    &&& grid.connected(pair.0, pair.1)
}

/// The first `wanted` pairs accepted of those that a generator holding
/// `state` proposes in `attempts` attempts; fewer where the attempts run out.
pub open spec fn generated(
    grid: &Grid,
    state: Seq<u64>,
    height: usize,
    width: usize,
    wanted: nat,
    attempts: nat,
) -> Seq<(Point, Point)>
    decreases attempts,
{
    if wanted == 0 || attempts == 0 {
        Seq::empty()
    } else {
        let (pair, next) = proposed(state, height, width);
        if accepts(grid, pair) {
            seq![pair] + generated(grid, next, height, width, (wanted - 1) as nat, (attempts - 1) as nat)
        } else {
            generated(grid, next, height, width, wanted, (attempts - 1) as nat)
        }
    }
}

/// Whether a proposed pair is put to the test of a search: two different
/// tiles of ground.
pub open spec fn tested(grid: &Grid, pair: (Point, Point)) -> bool {
    &&& pair.0 != pair.1
    &&& grid.contains(pair.0)
    &&& grid.contains(pair.1)
    &&& walkable()(grid.at(pair.0))
    &&& walkable()(grid.at(pair.1))
}

/// The number of searches that generating the pairs takes.
pub open spec fn spent(
    grid: &Grid,
    state: Seq<u64>,
    height: usize,
    width: usize,
    wanted: nat,
    attempts: nat,
) -> nat
    decreases attempts,
{
    if wanted == 0 || attempts == 0 {
        0
    } else {
        let (pair, next) = proposed(state, height, width);
        let search: nat = if tested(grid, pair) {
            1
        } else {
            0
        };
        if accepts(grid, pair) {
            search + spent(grid, next, height, width, (wanted - 1) as nat, (attempts - 1) as nat)
        } else {
            search + spent(grid, next, height, width, wanted, (attempts - 1) as nat)
        }
    }
}

/// The number of searches that generating the first `wanted` trials of
/// `seed` takes.
pub open spec fn spent_on_trials(grid: &Grid, seed: usize, wanted: nat, attempts: nat) -> nat {
    let height = grid.rows().len() as usize;
    let width = if grid.rows().len() == 0 {
        0usize
    } else {
        grid.rows()[0].len() as usize
    };
    spent(
        grid,
        seeded_state(seq![seed as u64, height as u64, width as u64]),
        height,
        width,
        wanted,
        attempts,
    )
}

/// The outcomes of the runs for `pairs`, one after the other: before each
/// run the grid forgets what it believed.
pub open spec fn trials_run<A: Agent>(
    model: A::Model,
    known: Seq<Seq<Known>>,
    pairs: Seq<(Point, Point)>,
    episodes: nat,
) -> Seq<Option<Datum>>
    decreases pairs.len(),
{
    if pairs.len() == 0 {
        Seq::empty()
    } else {
        let end = run::<A>(model, forget_known(known), pairs[0].0, pairs[0].1, episodes);
        seq![end.0.statistics()] + trials_run::<A>(
            end.1,
            end.2,
            pairs.subrange(1, pairs.len() as int),
            end.3,
        )
    }
}

/// The first `wanted` trials that `seed` gives on `grid` in `attempts`
/// attempts. The generator is seeded with `seed` and the grid's height and
/// width.
pub open spec fn trials_of(grid: &Grid, seed: usize, wanted: nat, attempts: nat) -> Seq<
    (Point, Point),
> {
    let height = grid.rows().len() as usize;
    let width = if grid.rows().len() == 0 {
        0usize
    } else {
        grid.rows()[0].len() as usize
    };
    generated(
        grid,
        seeded_state(seq![seed as u64, height as u64, width as u64]),
        height,
        width,
        wanted,
        attempts,
    )
}

/// The pairs from `start` on, none where there are not that many.
pub open spec fn from_index(pairs: Seq<(Point, Point)>, start: nat) -> Seq<(Point, Point)> {
    if start <= pairs.len() {
        pairs.subrange(start as int, pairs.len() as int)
    } else {
        Seq::empty()
    }
}

/// Every generated pair is accepted.
pub proof fn lemma_generated_accepted(
    grid: &Grid,
    state: Seq<u64>,
    height: usize,
    width: usize,
    wanted: nat,
    attempts: nat,
    i: int,
)
    requires
        0 <= i < generated(grid, state, height, width, wanted, attempts).len(),
    ensures
        accepts(grid, generated(grid, state, height, width, wanted, attempts)[i]),
        generated(grid, state, height, width, wanted, attempts).len() <= wanted,
    decreases attempts,
{
    lemma_generated_length(grid, state, height, width, wanted, attempts);
    let (pair, next) = proposed(state, height, width);
    if accepts(grid, pair) {
        if i > 0 {
            lemma_generated_accepted(
                grid,
                next,
                height,
                width,
                (wanted - 1) as nat,
                (attempts - 1) as nat,
                i - 1,
            );
        }
    } else {
        lemma_generated_accepted(grid, next, height, width, wanted, (attempts - 1) as nat, i);
    }
}

/// No more pairs are generated than were wanted.
pub proof fn lemma_generated_length(
    grid: &Grid,
    state: Seq<u64>,
    height: usize,
    width: usize,
    wanted: nat,
    attempts: nat,
)
    ensures
        generated(grid, state, height, width, wanted, attempts).len() <= wanted,
    decreases attempts,
{
    if wanted != 0 && attempts != 0 {
        let (pair, next) = proposed(state, height, width);
        if accepts(grid, pair) {
            lemma_generated_length(
                grid,
                next,
                height,
                width,
                (wanted - 1) as nat,
                (attempts - 1) as nat,
            );
        } else {
            lemma_generated_length(grid, next, height, width, wanted, (attempts - 1) as nat);
        }
    }
}

/// Whether a pair is accepted depends on the shape and the terrain alone.
pub proof fn lemma_accepts_by_terrain(grid: &Grid, other: &Grid, pair: (Point, Point))
    requires
        other.same_terrain(grid),
    ensures
        accepts(other, pair) == accepts(grid, pair),
{
    assert forall|p: Point| #[trigger] grid.contains(p) implies other.contains(p) && other.at(
        p,
    )@.terrain == grid.at(p)@.terrain by {
        assert(other.contains(p));
    }
    grid.lemma_connected_by_terrain(other, pair.0, pair.1);
}

/// Where the attempts sufficed for all the pairs wanted, more attempts, on a
/// grid of the same terrain, give the same pairs.
pub proof fn lemma_generated_with_more(
    grid: &Grid,
    other: &Grid,
    state: Seq<u64>,
    height: usize,
    width: usize,
    wanted: nat,
    attempts: nat,
    more: nat,
)
    requires
        other.same_terrain(grid),
        generated(grid, state, height, width, wanted, attempts).len() == wanted,
        attempts <= more,
    ensures
        generated(other, state, height, width, wanted, more) == generated(
            grid,
            state,
            height,
            width,
            wanted,
            attempts,
        ),
    decreases attempts,
{
    if wanted != 0 {
        let (pair, next) = proposed(state, height, width);
        lemma_accepts_by_terrain(grid, other, pair);
        if accepts(grid, pair) {
            lemma_generated_with_more(
                grid,
                other,
                next,
                height,
                width,
                (wanted - 1) as nat,
                (attempts - 1) as nat,
                (more - 1) as nat,
            );
        } else {
            lemma_generated_with_more(
                grid,
                other,
                next,
                height,
                width,
                wanted,
                (attempts - 1) as nat,
                (more - 1) as nat,
            );
        }
    }
}

/// A trial's number and the seed decide its pair: the trials from `start` up
/// to `end` are those that stand at these numbers among the trials from 0 up
/// to `end`, whatever the two grids believe and however many searches they
/// have run, where their terrain is the same and neither ran out of attempts.
pub proof fn law_trials_by_number(
    whole: &Grid,
    part: &Grid,
    seed: usize,
    start: nat,
    end: nat,
    whole_attempts: nat,
    part_attempts: nat,
)
    requires
        part.same_terrain(whole),
        start <= end,
        trials_of(whole, seed, end, whole_attempts).len() == end,
        trials_of(part, seed, end, part_attempts).len() == end,
    ensures
        from_index(trials_of(part, seed, end, part_attempts), start) == from_index(
            trials_of(whole, seed, end, whole_attempts),
            0,
        ).subrange(start as int, end as int),
{
    let height = whole.rows().len() as usize;
    let width = if whole.rows().len() == 0 {
        0usize
    } else {
        whole.rows()[0].len() as usize
    };
    let state = seeded_state(seq![seed as u64, height as u64, width as u64]);
    assert forall|p: Point| #[trigger] whole.contains(p) implies whole.at(p)@.terrain == part.at(
        p,
    )@.terrain by {
        assert(part.contains(p));
    }
    assert(whole.same_terrain(part));
    if whole_attempts <= part_attempts {
        lemma_generated_with_more(
            whole,
            part,
            state,
            height,
            width,
            end,
            whole_attempts,
            part_attempts,
        );
    } else {
        lemma_generated_with_more(
            part,
            whole,
            state,
            height,
            width,
            end,
            part_attempts,
            whole_attempts,
        );
    }
    let all = trials_of(whole, seed, end, whole_attempts);
    assert(from_index(all, 0) =~= all);
}

/// What a step of a run came to: the agent moved and the run goes on; or it
/// moved and arrived, with these statistics; or the run is over without
/// arriving, because the agent offered no step, the grid could number no
/// more searches, or a count of the statistics would not fit.
#[derive(Debug)]
pub enum Advance {
    Moved,
    Arrived(Datum),
    Stopped,
}

/// An agent at work on a grid: where it stands, and the statistics of the run
/// under way.
#[derive(Debug)]
pub struct Instance<'a, A> {
    pub grid: &'a mut Grid,
    pub agent: A,
    pub location: Point,
    pub data: Datum,
    pub verbosity: Verbosity,
}

impl<'a, A> Instance<'a, A> where A: Agent {
    /// The grid that the agent moves on.
    pub open spec fn grid(&self) -> Grid {
        *self.grid
    }

    /// The agent.
    pub open spec fn agent(&self) -> A {
        self.agent
    }

    /// Where the agent stands.
    pub open spec fn location(&self) -> Point {
        self.location
    }

    /// Whether a run can start: the grid is in order and small enough to be
    /// searched.
    pub open spec fn wf(&self) -> bool {
        self.grid().wf() && self.grid().searchable()
    }

    /// Whether the agent can plan a way to every tile of the grid.
    pub open spec fn ready(&self) -> bool {
        forall|goal: Point| #[trigger]
            self.grid().contains(goal) ==> self.agent().ready(&self.grid(), goal)
    }

    pub fn new(grid: &'a mut Grid, agent: A, verbosity: Verbosity) -> (instance: Instance<'a, A>)
        ensures
            instance.grid() == *old(grid),
            *final(instance.grid) == *final(grid),
            instance.agent() == agent,
            instance.location() == (Point { y: 0, x: 0 }),
            instance.data == Datum::start(),
            instance.verbosity == verbosity,
    {
        Instance {
            grid: grid,
            agent: agent,
            location: Point::new(0, 0),
            data: Datum::default(),
            verbosity: verbosity,
        }
    }

    /// Takes the step to `point`, if the statistics can hold it: counts it,
    /// adds what the agent says it costs, and looks around from there.
    fn move_agent(&mut self, point: Point) -> (moved: Option<Distance>)
        requires
            old(self).agent().prices(old(self).location(), point),
        ensures
            final(self).agent == old(self).agent,
            final(self).verbosity == old(self).verbosity,
            *final(final(self).grid) == *final(old(self).grid),
            match old(self).data.spec_walked(
                &A::price(old(self).agent.model(), old(self).location, point),
            ) {
                Some(walked) => {
                    &&& moved == Some(A::price(old(self).agent.model(), old(self).location, point))
                    &&& final(self).data == walked
                    &&& final(self).location == point
                    &&& Grid::looked(&old(self).grid(), &final(self).grid(), point)
                },
                None => {
                    &&& moved is None
                    &&& final(self).data == old(self).data
                    &&& final(self).location == old(self).location
                    &&& final(self).grid() == old(self).grid()
                },
            },
    {
        let price = self.agent.cost(&self.location, &point);
        match self.data.walked(&price) {
            Some(data) => {
                self.data = data;
                self.location = point;
                self.grid.look(&self.location);
                Some(price)
            },
            None => None,
        }
    }

    /// The trials numbered from `start` up to, not including, `end` of those
    /// that `seed` gives on the grid. The pairs are generated from the first
    /// on, whatever `start` is, so that a trial's number decides its pair.
    ///
    /// A pair is proposed by the seeded generator and accepted where its
    /// points are two different tiles of ground with a way over ground between
    /// them. Each attempt may take a search, so there are as many attempts as
    /// the grid has numbers left for searches; fewer trials come back where
    /// they run out.
    pub fn build_trials(&mut self, start: usize, end: usize, seed: usize) -> (trials: Vec<
        (Point, Point),
    >)
        requires
            old(self).wf(),
            old(self).grid().rows().len() > 0,
            old(self).grid().rows()[0].len() > 0,
            start <= end,
        ensures
            final(self).wf(),
            final(self).grid().same_knowledge(&old(self).grid()),
            final(self).agent() == old(self).agent(),
            *final(final(self).grid) == *final(old(self).grid),
            trials@ == from_index(
                trials_of(
                    &old(self).grid(),
                    seed,
                    end as nat,
                    (usize::MAX - old(self).grid().episode()) as nat,
                ),
                start as nat,
            ),
            final(self).grid().episode() == old(self).grid().episode() + spent_on_trials(
                &old(self).grid(),
                seed,
                end as nat,
                (usize::MAX - old(self).grid().episode()) as nat,
            ),
    {
        let height = self.grid.height();
        let width = self.grid.width();
        let mut seed_words: Vec<u64> = Vec::new();
        seed_words.push(seed as u64);
        seed_words.push(height as u64);
        seed_words.push(width as u64);
        let mut rng = seeded_generator(&seed_words);
        let mut trials: Vec<(Point, Point)> = Vec::with_capacity(end - start);
        let mut found: usize = 0;
        let mut budget: usize = self.grid.episodes_left();
        let ghost all = trials_of(
            old(self).grid,
            seed,
            end as nat,
            (usize::MAX - old(self).grid.episode()) as nat,
        );
        let ghost mut done: Seq<(Point, Point)> = Seq::empty();
        let ghost searches = spent_on_trials(
            old(self).grid,
            seed,
            end as nat,
            (usize::MAX - old(self).grid.episode()) as nat,
        );
        proof {
            assert(seed_words@ =~= seq![seed as u64, height as u64, width as u64]);
            assert(done + all =~= all);
        }
        while found < end && budget > 0
            invariant
                found <= end,
                *final(self.grid) == *final(old(self).grid),
                self.grid.wf(),
                self.grid.searchable(),
                self.grid.same_knowledge(old(self).grid),
                self.agent == old(self).agent,
                self.grid.episode() + budget <= usize::MAX,
                height == old(self).grid.rows().len(),
                height > 0,
                width == old(self).grid.rows()[0].len(),
                width > 0,
                done.len() == found,
                all == done + generated(
                    old(self).grid,
                    generator_state(rng),
                    height,
                    width,
                    (end - found) as nat,
                    budget as nat,
                ),
                trials@ == from_index(done, start as nat),
                old(self).grid.episode() + searches == self.grid.episode() + spent(
                    old(self).grid,
                    generator_state(rng),
                    height,
                    width,
                    (end - found) as nat,
                    budget as nat,
                ),
            decreases budget,
        {
            budget -= 1;
            let ghost state = generator_state(rng);
            let source_y = sample_between(&mut rng, 0, height as u64);
            let source_x = sample_between(&mut rng, 0, width as u64);
            let target_y = sample_between(&mut rng, 0, height as u64);
            let target_x = sample_between(&mut rng, 0, width as u64);
            let source = Point::new(source_y as usize, source_x as usize);
            let target = Point::new(target_y as usize, target_x as usize);
            let ghost before = *self.grid;
            let grounded = source != target && match self.grid.get(&source) {
                Some(tile) => tile.passable(),
                None => false,
            } && match self.grid.get(&target) {
                Some(tile) => tile.passable(),
                None => false,
            };
            let accepted = grounded && self.grid.has_path(&source, &target);
            proof {
                assert(proposed(state, height, width) == ((source, target), generator_state(rng)));
                assert(old(self).grid.contains(source) == before.contains(source));
                assert(old(self).grid.contains(target) == before.contains(target));
                assert forall|p: Point| #[trigger] old(self).grid.contains(p) implies before.at(
                    p,
                )@.terrain == old(self).grid.at(p)@.terrain by {
                    assert(before.contains(p));
                }
                old(self).grid.lemma_connected_by_terrain(&before, source, target);
                assert(accepted == accepts(old(self).grid, (source, target)));
                assert(grounded == tested(old(self).grid, (source, target)));
                before.lemma_searchable_by_shape(self.grid);
                assert forall|p: Point| #[trigger] self.grid.contains(p) implies self.grid.at(
                    p,
                )@.terrain == old(self).grid.at(p)@.terrain && self.grid.at(p)@.belief == old(
                    self,
                ).grid.at(p)@.belief by {
                    assert(before.contains(p));
                }
            }
            if accepted {
                if found >= start {
                    trials.push((source, target));
                }
                found += 1;
                proof {
                    let longer = done.push((source, target));
                    assert(longer + generated(
                        old(self).grid,
                        generator_state(rng),
                        height,
                        width,
                        (end - found) as nat,
                        budget as nat,
                    ) =~= all);
                    assert(trials@ =~= from_index(longer, start as nat));
                    done = longer;
                }
            }
        }
        proof {
            assert(done + Seq::<(Point, Point)>::empty() =~= done);
        }
        trials
    }

    /// Starts a run at `source`: the statistics and the agent are reset, and
    /// the grid looks around from `source`.
    pub fn begin(&mut self, source: Point)
        ensures
            Grid::looked(&old(self).grid(), &final(self).grid(), source),
            *final(final(self).grid) == *final(old(self).grid),
            final(self).agent().model() == A::blank(old(self).agent().model()),
            forall|grid: &Grid, goal: Point|
                old(self).agent().ready(grid, goal) ==> #[trigger] final(self).agent().ready(
                    grid,
                    goal,
                ),
            final(self).location() == source,
            final(self).data == Datum::start(),
            final(self).verbosity == old(self).verbosity,
    {
        self.data = Datum::default();
        self.agent.reset();
        self.location = source;
        self.grid.look(&self.location);
    }

    /// Takes the next step of a run toward `target`: the agent decides, the
    /// answer is counted, the move is priced and counted, and the grid looks
    /// around from where the move led. This is one round of `run_from`: the
    /// run goes on after `Moved`, has arrived with these statistics after
    /// `Arrived`, which clears the instance's own, and is over without
    /// arriving after `Stopped`.
    pub fn advance(&mut self, target: &Point) -> (step: Advance)
        requires
            old(self).wf(),
            old(self).grid().contains(old(self).location()),
            old(self).agent().ready(&old(self).grid(), *target),
        ensures
            final(self).wf(),
            Grid::learned(&old(self).grid(), &final(self).grid()),
            *final(final(self).grid) == *final(old(self).grid),
            forall|goal: Point|
                old(self).agent().ready(&old(self).grid(), goal) ==> #[trigger] final(self)
                    .agent().ready(&final(self).grid(), goal),
            final(self).grid().contains(final(self).location()),
            final(self).verbosity == old(self).verbosity,
            ({
                let end = run_from::<A>(
                    old(self).agent().model(),
                    old(self).grid().known(),
                    old(self).location(),
                    *target,
                    old(self).data,
                    (usize::MAX - old(self).grid().episode()) as nat,
                );
                match step {
                    Advance::Moved => {
                        &&& run_from::<A>(
                            final(self).agent().model(),
                            final(self).grid().known(),
                            final(self).location(),
                            *target,
                            final(self).data,
                            (usize::MAX - final(self).grid().episode()) as nat,
                        ) == end
                        &&& final(self).data.steps > old(self).data.steps
                    },
                    Advance::Arrived(datum) => {
                        &&& end.0 == Ending::Arrived(datum)
                        &&& final(self).agent().model() == end.1
                        &&& final(self).grid().known() == end.2
                        &&& usize::MAX - final(self).grid().episode() == end.3
                        &&& final(self).location() == *target
                        &&& final(self).data == Datum::start()
                    },
                    Advance::Stopped => {
                        &&& !(end.0 is Arrived)
                        &&& final(self).agent().model() == end.1
                        &&& final(self).grid().known() == end.2
                        &&& usize::MAX - final(self).grid().episode() == end.3
                    },
                }
            }),
    {
        if self.grid.exhausted() {
            return Advance::Stopped;
        }
        let ghost before = *self.grid;
        let ghost asked = self.agent;
        let answer = self.agent.act(self.grid, &self.location, target);
        let ghost planned = *self.grid;
        proof {
            before.lemma_same_known(&planned);
            Grid::lemma_searched_learned(&before, &planned);
            before.lemma_searchable_by_shape(&planned);
        }
        let datum = match answer {
            Some(datum) => datum,
            None => {
                return Advance::Stopped;
            },
        };
        proof {
            asked.lemma_ready_prices(&before, *target, self.location, datum.action);
        }
        let searched = match self.data.searched(datum.expansions) {
            Some(searched) => searched,
            None => {
                return Advance::Stopped;
            },
        };
        self.data = searched;
        if self.move_agent(datum.action).is_none() {
            return Advance::Stopped;
        }
        proof {
            Grid::lemma_looked_known(&planned, self.grid, datum.action);
            Grid::lemma_looked_learned(&planned, self.grid, datum.action);
            Grid::lemma_learned_twice(&before, &planned, self.grid);
            planned.lemma_searchable_by_shape(self.grid);
            assert forall|goal: Point| asked.ready(&before, goal) implies #[trigger] self.agent.ready(
                self.grid,
                goal,
            ) by {
                self.agent.lemma_ready_by_shape(&planned, self.grid, goal);
            }
        }
        if datum.action == *target {
            let datum = Datum {
                cost: self.data.cost,
                steps: self.data.steps,
                episodes: self.data.episodes,
                expansions: self.data.expansions,
            };
            self.data = Datum::default();
            Advance::Arrived(datum)
        } else {
            Advance::Moved
        }
    }

    /// Runs the agent from `source` until it arrives at `target`, and gives
    /// the statistics of the run: those of the moves made, the last of which
    /// is the first to arrive. `None` where the agent offers no step before
    /// that, or where the grid can number no more searches or a count of the
    /// statistics would not fit.
    ///
    /// The agent is reset first, and the grid looks around from `source` and
    /// from every tile that the agent moves to.
    pub fn run_once(&mut self, source: Point, target: Point) -> (outcome: Option<Datum>)
        requires
            old(self).wf(),
            old(self).grid().contains(source),
            old(self).agent().ready(&old(self).grid(), target),
        ensures
            final(self).wf(),
            Grid::learned(&old(self).grid(), &final(self).grid()),
            *final(final(self).grid) == *final(old(self).grid),
            forall|goal: Point|
                old(self).agent().ready(&old(self).grid(), goal) ==> #[trigger] final(self)
                    .agent().ready(&final(self).grid(), goal),
            outcome is Some ==> final(self).location() == target && final(self).data
                == Datum::start(),
            outcome matches Some(datum) ==> 1 <= datum.steps && datum.episodes <= datum.steps
                && datum.episodes <= datum.expansions,
            ({
                let end = run::<A>(
                    old(self).agent().model(),
                    old(self).grid().known(),
                    source,
                    target,
                    (usize::MAX - old(self).grid().episode()) as nat,
                );
                &&& outcome == end.0.statistics()
                &&& final(self).agent().model() == end.1
                &&& final(self).grid().known() == end.2
                &&& usize::MAX - final(self).grid().episode() == end.3
            }),
            A::blank(final(self).agent().model()) == A::blank(old(self).agent().model()),
            final(self).verbosity == old(self).verbosity,
    {
        proof {
            law_run_counts::<A>(
                A::blank(old(self).agent.model()),
                look_known(old(self).grid.known(), source),
                source,
                target,
                Datum::start(),
                (usize::MAX - old(self).grid.episode()) as nat,
            );
            lemma_run_leaves::<A>(
                A::blank(old(self).agent.model()),
                look_known(old(self).grid.known(), source),
                source,
                target,
                Datum::start(),
                (usize::MAX - old(self).grid.episode()) as nat,
            );
            A::lemma_blank_after_deciding(
                old(self).agent.model(),
                old(self).grid.known(),
                source,
                target,
            );
        }
        self.begin(source);
        let ghost end = run::<A>(
            old(self).agent.model(),
            old(self).grid.known(),
            source,
            target,
            (usize::MAX - old(self).grid.episode()) as nat,
        );
        proof {
            Grid::lemma_looked_known(old(self).grid, self.grid, source);
            Grid::lemma_looked_learned(old(self).grid, self.grid, source);
            old(self).grid.lemma_searchable_by_shape(self.grid);
            assert forall|goal: Point|
                old(self).agent.ready(old(self).grid, goal) implies #[trigger] self.agent.ready(
                self.grid,
                goal,
            ) by {
                assert(self.agent().ready(old(self).grid, goal));
                self.agent.lemma_ready_by_shape(old(self).grid, self.grid, goal);
            }
        }
        loop
            invariant
                *final(self.grid) == *final(old(self).grid),
                self.verbosity == old(self).verbosity,
                end == run::<A>(
                    old(self).agent.model(),
                    old(self).grid.known(),
                    source,
                    target,
                    (usize::MAX - old(self).grid.episode()) as nat,
                ),
                run_from::<A>(
                    self.agent.model(),
                    self.grid.known(),
                    self.location,
                    target,
                    self.data,
                    (usize::MAX - self.grid.episode()) as nat,
                ) == end,
                A::blank(end.1) == A::blank(old(self).agent.model()),
                end.0 matches Ending::Arrived(datum) ==> 1 <= datum.steps && datum.episodes
                    <= datum.steps && datum.episodes <= datum.expansions,
                self.grid.wf(),
                self.grid.searchable(),
                Grid::learned(old(self).grid, self.grid),
                self.grid.contains(self.location),
                forall|goal: Point|
                    old(self).agent.ready(old(self).grid, goal) ==> #[trigger] self.agent.ready(
                        self.grid,
                        goal,
                    ),
                old(self).agent.ready(old(self).grid, target),
            decreases usize::MAX - self.data.steps,
        {
            let ghost before = *self.grid;
            let ghost asked = self.agent;
            assert(asked.ready(&before, target));
            let step = self.advance(&target);
            proof {
                Grid::lemma_learned_twice(old(self).grid, &before, self.grid);
                assert forall|goal: Point|
                    old(self).agent.ready(old(self).grid, goal) implies #[trigger] self.agent.ready(
                    self.grid,
                    goal,
                ) by {
                    assert(asked.ready(&before, goal));
                    assert(self.agent().ready(&self.grid(), goal));
                }
            }
            match step {
                Advance::Moved => {},
                Advance::Arrived(datum) => {
                    return Some(datum);
                },
                Advance::Stopped => {
                    return None;
                },
            }
        }
    }

    /// Runs the trials numbered from `start` up to, not including, `end` of
    /// those that `seed` gives, each from nothing known: the grid forgets what
    /// it believed before every trial. The outcomes come in the order of the
    /// trials, `None` for a trial in which the agent did not arrive.
    pub fn run_trials(&mut self, start: usize, end: usize, seed: usize) -> (results: Data)
        requires
            old(self).wf(),
            old(self).ready(),
            old(self).grid().rows().len() > 0,
            old(self).grid().rows()[0].len() > 0,
            start <= end,
        ensures
            final(self).wf(),
            final(self).ready(),
            final(self).grid().same_terrain(&old(self).grid()),
            *final(final(self).grid) == *final(old(self).grid),
            results@ == trials_run::<A>(
                old(self).agent().model(),
                old(self).grid().known(),
                from_index(
                    trials_of(
                        &old(self).grid(),
                        seed,
                        end as nat,
                        (usize::MAX - old(self).grid().episode()) as nat,
                    ),
                    start as nat,
                ),
                (usize::MAX - old(self).grid().episode() - spent_on_trials(
                    &old(self).grid(),
                    seed,
                    end as nat,
                    (usize::MAX - old(self).grid().episode()) as nat,
                )) as nat,
            ),
            results@.len() == from_index(
                trials_of(
                    &old(self).grid(),
                    seed,
                    end as nat,
                    (usize::MAX - old(self).grid().episode()) as nat,
                ),
                start as nat,
            ).len(),
            A::blank(final(self).agent().model()) == A::blank(old(self).agent().model()),
    {
        let ghost all = trials_of(
            old(self).grid,
            seed,
            end as nat,
            (usize::MAX - old(self).grid.episode()) as nat,
        );
        let trials = self.build_trials(start, end, seed);
        let ghost built = *self.grid;
        let mut results = Data::new(end - start);
        let ghost whole = trials_run::<A>(
            self.agent.model(),
            built.known(),
            trials@,
            (usize::MAX - built.episode()) as nat,
        );
        proof {
            old(self).grid.lemma_same_known(&built);
            assert(trials@.subrange(0, trials@.len() as int) =~= trials@);
            assert(results@ + whole =~= whole);
            Grid::lemma_searched_learned(old(self).grid, &built);
            Grid::lemma_learned_same_terrain(old(self).grid, &built);
            assert forall|goal: Point| #[trigger] self.grid.contains(goal) implies self.agent.ready(
                self.grid,
                goal,
            ) by {
                assert(old(self).grid.contains(goal));
                self.agent.lemma_ready_by_shape(old(self).grid, self.grid, goal);
            }
        }
        let mut i: usize = 0;
        while i < trials.len()
            invariant
                i <= trials.len(),
                *final(self.grid) == *final(old(self).grid),
                results@ + trials_run::<A>(
                    self.agent.model(),
                    self.grid.known(),
                    trials@.subrange(i as int, trials@.len() as int),
                    (usize::MAX - self.grid.episode()) as nat,
                ) == whole,
                trials@ == from_index(all, start as nat),
                all == trials_of(
                    old(self).grid,
                    seed,
                    end as nat,
                    (usize::MAX - old(self).grid.episode()) as nat,
                ),
                old(self).grid.rows().len() > 0,
                old(self).grid.rows()[0].len() > 0,
                self.grid.wf(),
                self.grid.searchable(),
                self.grid.same_terrain(old(self).grid),
                forall|goal: Point| #[trigger]
                    self.grid.contains(goal) ==> self.agent.ready(self.grid, goal),
                results@.len() == i,
                A::blank(self.agent.model()) == A::blank(old(self).agent.model()),
            decreases trials.len() - i,
        {
            let source = trials[i].0;
            let target = trials[i].1;
            let ghost before = *self.grid;
            let ghost rest = trials@.subrange(i as int, trials@.len() as int);
            let ghost later = trials_run::<A>(
                self.agent.model(),
                before.known(),
                rest,
                (usize::MAX - before.episode()) as nat,
            );
            self.grid.forget();
            let ghost blank = *self.grid;
            proof {
                Grid::lemma_forgot_known(&before, &blank);
                assert(rest[0] == trials@[i as int]);
                assert(rest.subrange(1, rest.len() as int) =~= trials@.subrange(
                    i + 1,
                    trials@.len() as int,
                ));
                let height = old(self).grid.rows().len() as usize;
                let width = old(self).grid.rows()[0].len() as usize;
                lemma_generated_accepted(
                    old(self).grid,
                    seeded_state(seq![seed as u64, height as u64, width as u64]),
                    height,
                    width,
                    end as nat,
                    (usize::MAX - old(self).grid.episode()) as nat,
                    start + i,
                );
                assert(all[start + i] == trials@[i as int]);
                assert(old(self).grid.contains(source) && old(self).grid.contains(target));
                Grid::lemma_forgot_same_terrain(&before, &blank);
                Grid::lemma_same_terrain_twice(old(self).grid, &before, &blank);
                before.lemma_searchable_by_shape(&blank);
                assert forall|goal: Point| #[trigger] blank.contains(goal) implies self.agent.ready(
                    &blank,
                    goal,
                ) by {
                    assert(before.contains(goal));
                    self.agent.lemma_ready_by_shape(&before, &blank, goal);
                }
                assert(blank.contains(source) && blank.contains(target));
            }
            let ghost asked = self.agent;
            let outcome = self.run_once(source, target);
            let ghost recorded = results@;
            results.push(outcome);
            proof {
                assert(results@ + trials_run::<A>(
                    self.agent.model(),
                    self.grid.known(),
                    trials@.subrange(i + 1, trials@.len() as int),
                    (usize::MAX - self.grid.episode()) as nat,
                ) =~= recorded + later);
                Grid::lemma_learned_same_terrain(&blank, self.grid);
                Grid::lemma_same_terrain_twice(old(self).grid, &blank, self.grid);
                assert forall|goal: Point| #[trigger] self.grid.contains(goal) implies self.agent.ready(
                    self.grid,
                    goal,
                ) by {
                    assert(blank.contains(goal));
                    assert(asked.ready(&blank, goal));
                    assert(self.agent().ready(&self.grid(), goal));
                }
            }
            i += 1;
        }
        proof {
            assert(trials@.subrange(i as int, trials@.len() as int) =~= Seq::<
                (Point, Point),
            >::empty());
            assert(results@ + Seq::<Option<Datum>>::empty() =~= results@);
        }
        results
    }
}

} // verus!
