//! The agents: how the next step toward the target is chosen.

use crate::distance::Distance;
use crate::grid::{believed_free, free_known, known_area, Grid, Known, Point, Tile};
use crate::search::{estimate_of, estimates, is_route, planned, reachable, search, Path};
use vstd::prelude::*;

verus! {

/// An agent's answer: the step to take, and how many nodes the search for it
/// took from the open list, 0 where none was run.
#[derive(Debug)]
pub struct Datum {
    pub action: Point,
    pub expansions: usize,
}

/// The answer that a plan gives: its first step, which is the last point
/// listed, with the plan's expansions; none where there is no plan or the
/// plan has no step.
pub open spec fn first_step(plan: Option<(Seq<Point>, nat)>) -> Option<Datum> {
    match plan {
        Some((route, expansions)) => if route.len() > 0 {
            Some(Datum { action: route.last(), expansions: expansions as usize })
        } else {
            None
        },
        None => None,
    }
}

/// What `cost` says of the move from `from` to `to`.
pub open spec fn price_of<C: Fn(&Point, &Point) -> Distance>(
    cost: C,
    from: Point,
    to: Point,
) -> Distance {
    choose|d: Distance| call_ensures(cost, (&from, &to), d)
}

/// Whether `cost` can be asked for the move from `from` to `to`, and has one
/// answer.
pub open spec fn quotes<C: Fn(&Point, &Point) -> Distance>(cost: C, from: Point, to: Point) -> bool {
    &&& call_requires(cost, (&from, &to))
    &&& forall|d: Distance| #[trigger]
        call_ensures(cost, (&from, &to), d) ==> d == price_of(cost, from, to)
}

/// Whether `cost` can be asked for every move between tiles of `grid`, and
/// always has one answer.
pub open spec fn charges<C: Fn(&Point, &Point) -> Distance>(cost: C, grid: &Grid) -> bool {
    forall|from: Point, to: Point|
        grid.contains(from) && grid.contains(to) ==> #[trigger] quotes(cost, from, to)
}

/// A way of choosing steps. The caller moves the agent and lets the grid look
/// around; the agent only plans.
///
/// What an agent answers is decided by its model, which stands for its setup
/// and what it remembers, and by what is known of the grid: `decide` says
/// how.
pub trait Agent: Sized {
    /// What decides the agent's answers.
    type Model;

    /// The agent's model.
    spec fn model(&self) -> Self::Model;

    /// Whether the agent can plan a way to `target` on `grid`.
    spec fn ready(&self, grid: &Grid, target: Point) -> bool;

    /// Whether the agent can say what the move from `from` to `to` costs.
    spec fn prices(&self, from: Point, to: Point) -> bool;

    /// The answer of an agent at `location` that is asked for a step toward
    /// `target`, and its model afterwards.
    spec fn decide(
        model: Self::Model,
        known: Seq<Seq<Known>>,
        location: Point,
        target: Point,
    ) -> (Option<Datum>, Self::Model);

    /// Whether the agent runs a search for that answer.
    spec fn searches(
        model: Self::Model,
        known: Seq<Seq<Known>>,
        location: Point,
        target: Point,
    ) -> bool;

    /// The model of the agent once it is reset.
    spec fn blank(model: Self::Model) -> Self::Model;

    /// What the agent says the move from `from` to `to` costs.
    spec fn price(model: Self::Model, from: Point, to: Point) -> Distance;

    /// An agent that is ready on a grid is ready on every grid of its shape.
    proof fn lemma_ready_by_shape(&self, grid: &Grid, other: &Grid, target: Point)
        requires
            self.ready(grid, target),
            other.same_shape(grid),
        ensures
            self.ready(other, target),
    ;

    /// An agent that is ready on a grid prices the moves between its tiles.
    proof fn lemma_ready_prices(&self, grid: &Grid, target: Point, from: Point, to: Point)
        requires
            self.ready(grid, target),
            grid.contains(from),
            grid.contains(to),
        ensures
            self.prices(from, to),
    ;

    /// A reset wipes out what the answers given have left in the model.
    proof fn lemma_blank_after_deciding(
        model: Self::Model,
        known: Seq<Seq<Known>>,
        location: Point,
        target: Point,
    )
        ensures
            Self::blank(Self::decide(model, known, location, target).1) == Self::blank(model),
            Self::blank(Self::blank(model)) == Self::blank(model),
    ;

    /// The next step from `location` toward `target`, or `None` where the
    /// agent has none to offer: what `decide` says. The step is a tile of the
    /// grid; what is known of the terrain is untouched, and a search is run
    /// where `searches` says so.
    fn act(&mut self, grid: &mut Grid, location: &Point, target: &Point) -> (step: Option<Datum>)
        requires
            old(grid).wf(),
            old(grid).searchable(),
            old(grid).episode() < usize::MAX,
            old(grid).contains(*location),
            old(self).ready(old(grid), *target),
        ensures
            final(grid).wf(),
            final(grid).same_knowledge(old(grid)),
            final(grid).episode() == old(grid).episode() + if Self::searches(
                old(self).model(),
                old(grid).known(),
                *location,
                *target,
            ) {
                1int
            } else {
                0int
            },
            step == Self::decide(old(self).model(), old(grid).known(), *location, *target).0,
            final(self).model() == Self::decide(
                old(self).model(),
                old(grid).known(),
                *location,
                *target,
            ).1,
            forall|goal: Point|
                old(self).ready(old(grid), goal) ==> #[trigger] final(self).ready(
                    final(grid),
                    goal,
                ),
            forall|from: Point, to: Point|
                old(self).prices(from, to) ==> #[trigger] final(self).prices(from, to),
            step matches Some(datum) ==> final(grid).contains(datum.action),
    ;

    /// Forgets what was planned, before a new trial.
    fn reset(&mut self)
        ensures
            final(self).model() == Self::blank(old(self).model()),
            forall|grid: &Grid, target: Point|
                old(self).ready(grid, target) ==> #[trigger] final(self).ready(grid, target),
            forall|from: Point, to: Point|
                old(self).prices(from, to) ==> #[trigger] final(self).prices(from, to),
    ;

    /// What the move from `from` to `to` costs.
    fn cost(&self, from: &Point, to: &Point) -> (cost: Distance)
        requires
            self.prices(*from, *to),
        ensures
            cost == Self::price(self.model(), *from, *to),
    ;
}

/// The plan of a search from `location` for `target` over what is believed
/// free.
pub open spec fn plan_by_belief<H: Fn(&Point, &Point) -> Distance>(
    heuristic: H,
    known: Seq<Seq<Known>>,
    location: Point,
    target: Point,
) -> Option<(Seq<Point>, nat)> {
    planned(
        free_known(known),
        estimate_of(heuristic, target),
        location,
        target,
        known_area(known),
    )
}

/// The agent that searches anew for every step.
#[derive(Debug)]
pub struct AlwaysAstar<H, C> {
    heuristic: H,
    cost: C,
}

impl<H, C> AlwaysAstar<H, C> where
    H: Fn(&Point, &Point) -> Distance,
    C: Fn(&Point, &Point) -> Distance,
 {
    /// The heuristic that the agent searches with.
    pub closed spec fn heuristic(&self) -> H {
        self.heuristic
    }

    /// The measure that the agent prices moves with.
    pub closed spec fn pricing(&self) -> C {
        self.cost
    }

    pub fn new(heuristic: H, cost: C) -> (agent: AlwaysAstar<H, C>)
        ensures
            agent.heuristic() == heuristic,
            agent.pricing() == cost,
    {
        AlwaysAstar { heuristic: heuristic, cost: cost }
    }

    /// What being ready and pricing mean for this agent, for callers that
    /// know the heuristic and the measure.
    pub proof fn lemma_ready(&self, grid: &Grid, target: Point, from: Point, to: Point)
        ensures
            self.ready(grid, target) == (estimates(self.heuristic(), grid, target) && charges(
                self.pricing(),
                grid,
            )),
            self.prices(from, to) == quotes(self.pricing(), from, to),
            self.model() == (self.heuristic(), self.pricing()),
    {
    }

    /// What the agent decides, for callers that know the heuristic and the
    /// measure.
    pub proof fn lemma_decides(
        model: (H, C),
        known: Seq<Seq<Known>>,
        location: Point,
        target: Point,
    )
        ensures
            <Self as Agent>::decide(model, known, location, target) == (
                first_step(plan_by_belief(model.0, known, location, target)),
                model,
            ),
            <Self as Agent>::searches(model, known, location, target),
            <Self as Agent>::blank(model) == model,
            <Self as Agent>::price(model, location, target) == price_of(
                model.1,
                location,
                target,
            ),
    {
    }
}

impl<H, C> Agent for AlwaysAstar<H, C> where
    H: Fn(&Point, &Point) -> Distance,
    C: Fn(&Point, &Point) -> Distance,
 {
    type Model = (H, C);

    open spec fn model(&self) -> (H, C) {
        (self.heuristic(), self.pricing())
    }

    open spec fn ready(&self, grid: &Grid, target: Point) -> bool {
        estimates(self.heuristic(), grid, target) && charges(self.pricing(), grid)
    }

    open spec fn prices(&self, from: Point, to: Point) -> bool {
        quotes(self.pricing(), from, to)
    }

    /// The first step of the plan by belief; the model stays.
    open spec fn decide(model: (H, C), known: Seq<Seq<Known>>, location: Point, target: Point) -> (
        Option<Datum>,
        (H, C),
    ) {
        (first_step(plan_by_belief(model.0, known, location, target)), model)
    }

    open spec fn searches(
        model: (H, C),
        known: Seq<Seq<Known>>,
        location: Point,
        target: Point,
    ) -> bool {
        true
    }

    open spec fn blank(model: (H, C)) -> (H, C) {
        model
    }

    open spec fn price(model: (H, C), from: Point, to: Point) -> Distance {
        price_of(model.1, from, to)
    }

    proof fn lemma_ready_by_shape(&self, grid: &Grid, other: &Grid, target: Point) {
        assert forall|p: Point| #[trigger] other.contains(p) implies grid.contains(p) by {}
    }

    proof fn lemma_ready_prices(&self, grid: &Grid, target: Point, from: Point, to: Point) {
    }

    proof fn lemma_blank_after_deciding(
        model: (H, C),
        known: Seq<Seq<Known>>,
        location: Point,
        target: Point,
    ) {
    }

    /// Searches from `location` over the tiles believed free and gives the
    /// first step of the route found. There is a step exactly where such a
    /// route exists and `location` is not the target yet.
    fn act(&mut self, grid: &mut Grid, location: &Point, target: &Point) -> (step: Option<Datum>)
        ensures
            final(self).heuristic() == old(self).heuristic(),
            final(self).pricing() == old(self).pricing(),
            step.is_some() == (*location != *target && reachable(
                old(grid),
                believed_free(),
                *location,
                *target,
            )),
            step matches Some(datum) ==> {
                &&& location.adjacent(datum.action)
                &&& believed_free()(old(grid).at(datum.action))
                &&& 1 <= datum.expansions <= old(grid).area()
                &&& exists|route: Seq<Point>|
                    is_route(old(grid), believed_free(), *location, *target, route)
                        && route.last() == datum.action
            },
    {
        proof {
            old(grid).lemma_free_known();
        }
        let found = search(
            grid,
            location,
            target,
            &self.heuristic,
            Tile::freespace,
            Ghost(believed_free()),
        );
        proof {
            assert forall|goal: Point| old(self).ready(old(grid), goal) implies #[trigger] self.ready(
                grid,
                goal,
            ) by {
                self.lemma_ready_by_shape(old(grid), grid, goal);
            }
        }
        match found {
            Some(mut data) => {
                match data.path.pop() {
                    Some(next) => Some(Datum { action: next, expansions: data.expansions }),
                    None => None,
                }
            },
            None => None,
        }
    }

    fn reset(&mut self)
        ensures
            final(self).heuristic() == old(self).heuristic(),
            final(self).pricing() == old(self).pricing(),
    {
    }

    fn cost(&self, from: &Point, to: &Point) -> (cost: Distance) {
        (self.cost)(from, to)
    }
}

/// The agent that follows the route it found for as long as the next step is
/// believed free, and searches again when it is not, or when the route is
/// used up.
#[derive(Debug)]
pub struct RepeatedAstar<H, C> {
    heuristic: H,
    cost: C,
    path: Option<Path>,
}

/// Whether the plan has a next step that is a tile believed free.
pub open spec fn can_follow(plan: Option<Seq<Point>>, known: Seq<Seq<Known>>) -> bool {
    plan matches Some(steps) && steps.len() > 0 && free_known(known)(steps.last())
}

impl<H, C> RepeatedAstar<H, C> where
    H: Fn(&Point, &Point) -> Distance,
    C: Fn(&Point, &Point) -> Distance,
 {
    /// The heuristic that the agent searches with.
    pub closed spec fn heuristic(&self) -> H {
        self.heuristic
    }

    /// The measure that the agent prices moves with.
    pub closed spec fn pricing(&self) -> C {
        self.cost
    }

    /// The steps still to follow, the next one last; `None` where the agent
    /// has no plan.
    pub closed spec fn plan(&self) -> Option<Seq<Point>> {
        match self.path {
            Some(path) => Some(path@),
            None => None,
        }
    }

    /// The step that the plan offers next, if there is a plan with a step
    /// left.
    pub open spec fn planned_step(&self) -> Option<Point> {
        match self.plan() {
            Some(steps) => if steps.len() > 0 {
                Some(steps.last())
            } else {
                None
            },
            None => None,
        }
    }

    /// The plan without its next step.
    pub open spec fn plan_after_step(&self) -> Option<Seq<Point>> {
        match self.plan() {
            Some(steps) => if steps.len() > 0 {
                Some(steps.drop_last())
            } else {
                Some(steps)
            },
            None => None,
        }
    }

    pub fn new(heuristic: H, cost: C) -> (agent: RepeatedAstar<H, C>)
        ensures
            agent.heuristic() == heuristic,
            agent.pricing() == cost,
            agent.plan() is None,
    {
        RepeatedAstar { heuristic: heuristic, cost: cost, path: None }
    }

    /// What being ready and pricing mean for this agent, for callers that
    /// know the heuristic and the measure.
    pub proof fn lemma_ready(&self, grid: &Grid, target: Point, from: Point, to: Point)
        ensures
            self.ready(grid, target) == (estimates(self.heuristic(), grid, target) && charges(
                self.pricing(),
                grid,
            )),
            self.prices(from, to) == quotes(self.pricing(), from, to),
            self.model() == (self.heuristic(), self.pricing(), self.plan()),
    {
    }

    /// What the agent decides, for callers that know the heuristic and the
    /// measure.
    pub proof fn lemma_decides(
        model: (H, C, Option<Seq<Point>>),
        known: Seq<Seq<Known>>,
        location: Point,
        target: Point,
    )
        ensures
            can_follow(model.2, known) ==> <Self as Agent>::decide(
                model,
                known,
                location,
                target,
            ) == (
                Some(Datum { action: model.2.unwrap().last(), expansions: 0 }),
                (model.0, model.1, Some(model.2.unwrap().drop_last())),
            ),
            !can_follow(model.2, known) ==> <Self as Agent>::decide(
                model,
                known,
                location,
                target,
            ) == match plan_by_belief(model.0, known, location, target) {
                Some(plan) => (
                    first_step(Some(plan)),
                    (
                        model.0,
                        model.1,
                        Some(
                            if plan.0.len() > 0 {
                                plan.0.drop_last()
                            } else {
                                plan.0
                            },
                        ),
                    ),
                ),
                None => (None, (model.0, model.1, None)),
            },
            <Self as Agent>::searches(model, known, location, target) == !can_follow(
                model.2,
                known,
            ),
            <Self as Agent>::blank(model) == (model.0, model.1, None::<Seq<Point>>),
            <Self as Agent>::price(model, location, target) == price_of(
                model.1,
                location,
                target,
            ),
    {
    }

    /// Searches from `location` and takes the route found as the new plan;
    /// where none is found the agent is left without a plan. Gives the number
    /// of expansions, 0 where nothing was found.
    fn update_path(&mut self, grid: &mut Grid, location: &Point, target: &Point) -> (expansions:
        usize)
        requires
            old(grid).wf(),
            old(grid).searchable(),
            old(grid).episode() < usize::MAX,
            old(grid).contains(*location),
            estimates(old(self).heuristic(), old(grid), *target),
        ensures
            final(grid).wf(),
            final(grid).same_knowledge(old(grid)),
            final(grid).episode() == old(grid).episode() + 1,
            final(self).heuristic() == old(self).heuristic(),
            final(self).pricing() == old(self).pricing(),
            match plan_by_belief(old(self).heuristic(), old(grid).known(), *location, *target) {
                Some(plan) => final(self).plan() == Some(plan.0) && expansions == plan.1,
                None => final(self).plan() is None && expansions == 0,
            },
            final(self).plan().is_some() == reachable(
                old(grid),
                believed_free(),
                *location,
                *target,
            ),
            final(self).plan() matches Some(route) ==> is_route(
                old(grid),
                believed_free(),
                *location,
                *target,
                route,
            ) && 1 <= expansions <= old(grid).area(),
    {
        proof {
            old(grid).lemma_free_known();
        }
        match search(
            grid,
            location,
            target,
            &self.heuristic,
            Tile::freespace,
            Ghost(believed_free()),
        ) {
            Some(data) => {
                self.path = Some(data.path);
                data.expansions
            },
            None => {
                self.path = None;
                0
            },
        }
    }

    /// Takes the next step off the plan, if there is one.
    fn follow_path(&mut self) -> (next: Option<Point>)
        ensures
            next == old(self).planned_step(),
            final(self).plan() == old(self).plan_after_step(),
            final(self).heuristic() == old(self).heuristic(),
            final(self).pricing() == old(self).pricing(),
    {
        match &mut self.path {
            Some(path) => path.pop(),
            None => None,
        }
    }
}

impl<H, C> Agent for RepeatedAstar<H, C> where
    H: Fn(&Point, &Point) -> Distance,
    C: Fn(&Point, &Point) -> Distance,
 {
    type Model = (H, C, Option<Seq<Point>>);

    open spec fn model(&self) -> (H, C, Option<Seq<Point>>) {
        (self.heuristic(), self.pricing(), self.plan())
    }

    open spec fn ready(&self, grid: &Grid, target: Point) -> bool {
        estimates(self.heuristic(), grid, target) && charges(self.pricing(), grid)
    }

    open spec fn prices(&self, from: Point, to: Point) -> bool {
        quotes(self.pricing(), from, to)
    }

    /// Where the plan can be followed: its next step, with no expansions, and
    /// the rest of the plan is kept. Otherwise a search by belief is run: the
    /// first step of its plan is the answer and the rest the new plan; where
    /// it finds nothing there is no answer and no plan.
    open spec fn decide(
        model: (H, C, Option<Seq<Point>>),
        known: Seq<Seq<Known>>,
        location: Point,
        target: Point,
    ) -> (Option<Datum>, (H, C, Option<Seq<Point>>)) {
        if can_follow(model.2, known) {
            (
                Some(Datum { action: model.2.unwrap().last(), expansions: 0 }),
                (model.0, model.1, Some(model.2.unwrap().drop_last())),
            )
        } else {
            match plan_by_belief(model.0, known, location, target) {
                Some(plan) => (
                    first_step(Some(plan)),
                    (
                        model.0,
                        model.1,
                        Some(
                            if plan.0.len() > 0 {
                                plan.0.drop_last()
                            } else {
                                plan.0
                            },
                        ),
                    ),
                ),
                None => (None, (model.0, model.1, None)),
            }
        }
    }

    open spec fn searches(
        model: (H, C, Option<Seq<Point>>),
        known: Seq<Seq<Known>>,
        location: Point,
        target: Point,
    ) -> bool {
        !can_follow(model.2, known)
    }

    open spec fn blank(model: (H, C, Option<Seq<Point>>)) -> (H, C, Option<Seq<Point>>) {
        (model.0, model.1, None)
    }

    open spec fn price(model: (H, C, Option<Seq<Point>>), from: Point, to: Point) -> Distance {
        price_of(model.1, from, to)
    }

    proof fn lemma_ready_by_shape(&self, grid: &Grid, other: &Grid, target: Point) {
        assert forall|p: Point| #[trigger] other.contains(p) implies grid.contains(p) by {}
    }

    proof fn lemma_ready_prices(&self, grid: &Grid, target: Point, from: Point, to: Point) {
    }

    proof fn lemma_blank_after_deciding(
        model: (H, C, Option<Seq<Point>>),
        known: Seq<Seq<Known>>,
        location: Point,
        target: Point,
    ) {
    }

    /// Follows the plan where its next step is a tile believed free: that
    /// step is given with 0 expansions, and no search is run. Otherwise
    /// searches from `location` over the tiles believed free; the route found
    /// is the new plan and its first step is given. Where no route exists the
    /// agent is left without a plan and gives no step, and where `location`
    /// is the target already it gives none either.
    fn act(&mut self, grid: &mut Grid, location: &Point, target: &Point) -> (step: Option<Datum>)
        ensures
            final(self).heuristic() == old(self).heuristic(),
            final(self).pricing() == old(self).pricing(),
            can_follow(old(self).plan(), old(grid).known()) ==> final(grid).rows() == old(
                grid,
            ).rows(),
            !can_follow(old(self).plan(), old(grid).known()) ==> {
                &&& step.is_some() == (*location != *target && reachable(
                    old(grid),
                    believed_free(),
                    *location,
                    *target,
                ))
                &&& step matches Some(datum) ==> {
                    &&& location.adjacent(datum.action)
                    &&& believed_free()(old(grid).at(datum.action))
                    &&& 1 <= datum.expansions <= old(grid).area()
                    &&& is_route(
                        old(grid),
                        believed_free(),
                        *location,
                        *target,
                        final(self).plan().unwrap().push(datum.action),
                    )
                }
            },
    {
        proof {
            old(grid).lemma_free_known();
        }
        if let Some(next) = self.follow_path() {
            let free = match grid.get(&next) {
                Some(tile) => tile.freespace(),
                None => false,
            };
            if free {
                return Some(Datum { action: next, expansions: 0 });
            }
        }
        let expansions = self.update_path(grid, location, target);
        let ghost route = self.plan();
        let next = self.follow_path();
        proof {
            assert forall|goal: Point| old(self).ready(old(grid), goal) implies #[trigger] self.ready(
                grid,
                goal,
            ) by {
                self.lemma_ready_by_shape(old(grid), grid, goal);
            }
        }
        match next {
            Some(next) => {
                proof {
                    assert(route.unwrap() =~= self.plan().unwrap().push(next));
                }
                Some(Datum { action: next, expansions: expansions })
            },
            None => None,
        }
    }

    fn reset(&mut self)
        ensures
            final(self).heuristic() == old(self).heuristic(),
            final(self).pricing() == old(self).pricing(),
            final(self).plan() is None,
    {
        self.path = None;
    }

    fn cost(&self, from: &Point, to: &Point) -> (cost: Distance) {
        (self.cost)(from, to)
    }
}

} // verus!
