//! An agent-world framework: agents perceive a world, act on it, and a
//! judge scores the run.

pub mod rectangle;
pub mod simple;

use vstd::prelude::*;

verus! {

/// A score.
pub type Score = i32;

/// The largest size of a world's measure or of an action's cost, so that the
/// score of a whole run fits a `Score`.
pub const MAX_MEASURE: i32 = 1_000_000;

/// The number of steps of a run.
pub const LIFE_SPAN: u32 = 1000;

/// What an agent perceives of a world.
pub trait Perceptor<W> {
    type Percept;

    /// What the agent perceives of `world`.
    spec fn observe_spec(&self, world: W) -> Self::Percept;

    /// What the agent perceives of `world`.
    fn observe(&self, world: &W) -> (r: Self::Percept)
        ensures
            r == self.observe_spec(*world),
    ;
}

/// An action on a world.
pub trait Actuator<W> {
    /// What the action costs; within `MAX_MEASURE` either way.
    spec fn cost_spec(&self) -> int;

    /// Whether performing the action on `before` may leave `after`.
    spec fn transforms(&self, before: W, after: W) -> bool;

    /// Performs the action on `world`.
    fn apply(&self, world: &mut W)
        ensures
            self.transforms(*old(world), *final(world)),
    ;

    /// What the action costs.
    fn cost(&self) -> (r: Score)
        ensures
            r == self.cost_spec(),
            -MAX_MEASURE <= r <= MAX_MEASURE,
    ;
}

/// An agent: chooses an action from what it perceives.
pub trait Agent<W, P>: Sized {
    type A: Actuator<W>;

    /// Whether the agent, perceiving `percept`, may become `after` and
    /// choose `action`.
    spec fn steps(&self, percept: P, after: Self, action: Self::A) -> bool;

    /// Chooses an action from what the agent perceives.
    fn step(&mut self, percept: P) -> (r: Self::A)
        ensures
            old(self).steps(percept, *final(self), r),
    ;
}

/// A world with a performance measure.
pub trait World {
    /// The measure of the world; within `MAX_MEASURE` either way.
    spec fn measure_spec(&self) -> int;

    /// The measure of the world.
    fn measure(&self) -> (r: Score)
        ensures
            r == self.measure_spec(),
            -MAX_MEASURE <= r <= MAX_MEASURE,
    ;
}

/// Scores a run from the worlds and actions it is shown.
pub trait Judge<W: World, A: Actuator<W>> {
    /// The number of worlds shown so far.
    spec fn rounds(&self) -> nat;

    /// The number of actions shown so far.
    spec fn acts(&self) -> nat;

    /// The score so far.
    spec fn score_spec(&self) -> int;

    /// What a world shown adds to the score.
    spec fn world_gain(world: W) -> int;

    /// What an action shown adds to the score.
    spec fn act_gain(action: A) -> int;

    /// Takes in a world of the run.
    fn assert_world(&mut self, world: &W)
        requires
            old(self).rounds() < LIFE_SPAN,
        ensures
            final(self).rounds() == old(self).rounds() + 1,
            final(self).acts() == old(self).acts(),
            final(self).score_spec() == old(self).score_spec() + Self::world_gain(*world),
    ;

    /// Takes in the action chosen in the last world shown.
    fn assert_actuator(&mut self, actuator: &A)
        requires
            old(self).acts() < old(self).rounds(),
        ensures
            final(self).rounds() == old(self).rounds(),
            final(self).acts() == old(self).acts() + 1,
            final(self).score_spec() == old(self).score_spec() + Self::act_gain(*actuator),
    ;

    /// The score of the run so far.
    fn score(&self) -> (r: Score)
        ensures
            r == self.score_spec(),
    ;
}

/// Scores a run by the sum of the measures of its worlds.
pub struct MeasureJudge {
    score: Score,
    rounds: Ghost<nat>,
    acts: Ghost<nat>,
}

impl MeasureJudge {
    #[verifier::type_invariant]
    spec fn bounded(self) -> bool {
        &&& self.rounds@ <= LIFE_SPAN
        &&& -(self.rounds@ * MAX_MEASURE) <= self.score <= self.rounds@ * MAX_MEASURE
    }

    /// The number of worlds shown so far.
    pub closed spec fn shown(&self) -> nat {
        self.rounds@
    }

    /// The number of actions shown so far.
    pub closed spec fn acted(&self) -> nat {
        self.acts@
    }

    /// The sum of their measures.
    pub closed spec fn total(&self) -> int {
        self.score as int
    }
}

impl Default for MeasureJudge {
    fn default() -> (r: Self)
        ensures
            r.shown() == 0,
            r.acted() == 0,
            r.total() == 0,
    {
        MeasureJudge { score: 0, rounds: Ghost(0), acts: Ghost(0) }
    }
}

impl<W: World, A: Actuator<W>> Judge<W, A> for MeasureJudge {
    open spec fn rounds(&self) -> nat {
        self.shown()
    }

    open spec fn acts(&self) -> nat {
        self.acted()
    }

    open spec fn score_spec(&self) -> int {
        self.total()
    }

    /// The world's measure.
    open spec fn world_gain(world: W) -> int {
        world.measure_spec()
    }

    /// Nothing: actions do not count.
    open spec fn act_gain(action: A) -> int {
        0
    }

    /// Adds the world's measure to the score.
    fn assert_world(&mut self, world: &W)
        ensures
            final(self).total() == old(self).total() + world.measure_spec(),
    {
        proof {
            use_type_invariant(&*self);
        }
        let m = world.measure();
        let ghost n = self.rounds@;
        assert(n * MAX_MEASURE + MAX_MEASURE == (n + 1) * MAX_MEASURE) by (nonlinear_arith);
        assert((n + 1) * MAX_MEASURE <= LIFE_SPAN * MAX_MEASURE) by (nonlinear_arith)
            requires
                n < LIFE_SPAN;
        *self = MeasureJudge { score: self.score + m, rounds: Ghost((n + 1) as nat), acts: self.acts };
    }

    /// Leaves the score as it is.
    fn assert_actuator(&mut self, actuator: &A)
        ensures
            final(self).total() == old(self).total(),
    {
        proof {
            use_type_invariant(&*self);
        }
        *self = MeasureJudge { score: self.score, rounds: self.rounds, acts: Ghost((self.acts@ + 1) as nat) };
    }

    fn score(&self) -> (r: Score) {
        self.score
    }
}

/// Scores a run by the sum of the measures of its worlds less the costs of
/// its actions.
pub struct CostJudge {
    score: Score,
    rounds: Ghost<nat>,
    acts: Ghost<nat>,
}

impl CostJudge {
    #[verifier::type_invariant]
    spec fn bounded(self) -> bool {
        &&& self.rounds@ <= LIFE_SPAN
        &&& self.acts@ <= self.rounds@
        &&& -((self.rounds@ + self.acts@) * MAX_MEASURE) <= self.score <= (self.rounds@ + self.acts@) * MAX_MEASURE
    }

    /// The number of worlds shown so far.
    pub closed spec fn shown(&self) -> nat {
        self.rounds@
    }

    /// The number of actions shown so far.
    pub closed spec fn acted(&self) -> nat {
        self.acts@
    }

    /// The sum of their measures less the costs of the actions.
    pub closed spec fn total(&self) -> int {
        self.score as int
    }
}

impl Default for CostJudge {
    fn default() -> (r: Self)
        ensures
            r.shown() == 0,
            r.acted() == 0,
            r.total() == 0,
    {
        CostJudge { score: 0, rounds: Ghost(0), acts: Ghost(0) }
    }
}

impl<W: World, A: Actuator<W>> Judge<W, A> for CostJudge {
    open spec fn rounds(&self) -> nat {
        self.shown()
    }

    open spec fn acts(&self) -> nat {
        self.acted()
    }

    open spec fn score_spec(&self) -> int {
        self.total()
    }

    /// The world's measure.
    open spec fn world_gain(world: W) -> int {
        world.measure_spec()
    }

    /// The action's cost, taken away.
    open spec fn act_gain(action: A) -> int {
        -action.cost_spec()
    }

    /// Adds the world's measure to the score.
    fn assert_world(&mut self, world: &W)
        ensures
            final(self).total() == old(self).total() + world.measure_spec(),
    {
        proof {
            use_type_invariant(&*self);
        }
        let m = world.measure();
        let ghost n = self.rounds@ + self.acts@;
        assert(n * MAX_MEASURE + MAX_MEASURE == (n + 1) * MAX_MEASURE) by (nonlinear_arith);
        assert((n + 1) * MAX_MEASURE <= 2 * LIFE_SPAN * MAX_MEASURE) by (nonlinear_arith)
            requires
                n < 2 * LIFE_SPAN;
        *self = CostJudge { score: self.score + m, rounds: Ghost((self.rounds@ + 1) as nat), acts: self.acts };
    }

    /// Takes the action's cost from the score.
    fn assert_actuator(&mut self, actuator: &A)
        ensures
            final(self).total() == old(self).total() - actuator.cost_spec(),
    {
        proof {
            use_type_invariant(&*self);
        }
        let c = actuator.cost();
        let ghost n = self.rounds@ + self.acts@;
        assert(n * MAX_MEASURE + MAX_MEASURE == (n + 1) * MAX_MEASURE) by (nonlinear_arith);
        assert((n + 1) * MAX_MEASURE <= 2 * LIFE_SPAN * MAX_MEASURE) by (nonlinear_arith)
            requires
                n < 2 * LIFE_SPAN;
        *self = CostJudge { score: self.score - c, rounds: self.rounds, acts: Ghost((self.acts@ + 1) as nat) };
    }

    fn score(&self) -> (r: Score) {
        self.score
    }
}

/// The worlds and actions of a run of `n` steps from `start`: each action
/// performed on the world before it leaves the world after it.
pub open spec fn is_run<W: World, A: Actuator<W>>(start: W, worlds: Seq<W>, actions: Seq<A>, n: nat) -> bool {
    &&& worlds.len() == n + 1
    &&& actions.len() == n
    &&& worlds[0] == start
    &&& forall|i: int| 0 <= i < n ==> #[trigger] actions[i].transforms(worlds[i], worlds[i + 1])
}

/// The agents of a run of `n` steps through `worlds`: at each step the agent
/// perceives the world and chooses the action of that step, becoming the
/// agent of the next step.
pub open spec fn chooses<W, P, A, G>(start: G, worlds: Seq<W>, actions: Seq<A>, agents: Seq<G>, n: nat) -> bool
    where
        W: World,
        A: Actuator<W>,
        G: Agent<W, P, A = A> + Perceptor<W, Percept = P>,
{
    &&& agents.len() == n + 1
    &&& agents[0] == start
    &&& forall|i: int| 0 <= i < n ==> #[trigger] agents[i].steps(agents[i].observe_spec(worlds[i]), agents[i + 1], actions[i])
}

/// What judge type `J` adds to the score over the first `n` steps of a run:
/// the gain of each world shown and of the action chosen in it.
pub open spec fn run_score<W: World, A: Actuator<W>, J: Judge<W, A>>(
    worlds: Seq<W>,
    actions: Seq<A>,
    n: nat,
) -> int
    decreases n,
{
    if n == 0 {
        0
    } else {
        run_score::<W, A, J>(worlds, actions, (n - 1) as nat) + J::world_gain(worlds[n - 1]) + J::act_gain(
            actions[n - 1],
        )
    }
}

/// Runs `agent` in `world` for `LIFE_SPAN` steps: each step the judge sees
/// the world, the agent perceives it and chooses an action, the judge sees
/// the action, and the action is performed. Returns the judge's score: its
/// score at the start plus what each world and action of the run add.
pub fn simulate<W, P, A, G, J>(world: W, agent: G, judge: J) -> (r: Score)
    where
        W: World,
        A: Actuator<W>,
        G: Agent<W, P, A = A> + Perceptor<W, Percept = P>,
        J: Judge<W, A>,
    requires
        judge.rounds() == 0,
        judge.acts() == 0,
    ensures
        exists|worlds: Seq<W>, actions: Seq<A>, agents: Seq<G>|
            #[trigger] is_run(world, worlds, actions, LIFE_SPAN as nat) && #[trigger] chooses(
                agent,
                worlds,
                actions,
                agents,
                LIFE_SPAN as nat,
            ) && r == judge.score_spec() + run_score::<W, A, J>(worlds, actions, LIFE_SPAN as nat),
{
    let ghost start = world;
    let ghost agent0 = agent;
    let ghost score0 = judge.score_spec();
    let mut world = world;
    let mut agent = agent;
    let mut judge = judge;
    let ghost mut worlds: Seq<W> = seq![world];
    let ghost mut actions: Seq<A> = Seq::empty();
    let ghost mut agents: Seq<G> = seq![agent];
    let mut step: u32 = 0;
    while step < LIFE_SPAN
        invariant
            step <= LIFE_SPAN,
            judge.rounds() == step,
            judge.acts() == step,
            is_run(start, worlds, actions, step as nat),
            chooses(agent0, worlds, actions, agents, step as nat),
            worlds.last() == world,
            agents.last() == agent,
            judge.score_spec() == score0 + run_score::<W, A, J>(worlds, actions, step as nat),
        decreases LIFE_SPAN - step,
    {
        judge.assert_world(&world);
        let ghost seen = world;
        let ghost chooser = agent;
        let percept = agent.observe(&world);
        let actuator = agent.step(percept);
        judge.assert_actuator(&actuator);
        let ghost before = world;
        actuator.apply(&mut world);
        proof {
            let ghost old_worlds = worlds;
            let ghost old_actions = actions;
            let ghost old_agents = agents;
            worlds = worlds.push(world);
            actions = actions.push(actuator);
            agents = agents.push(agent);
            assert(worlds[step as int] == before);
            assert forall|i: int| 0 <= i < step + 1 implies #[trigger] actions[i].transforms(worlds[i], worlds[i + 1]) by {
                if i < step {
                    assert(actions[i] == old_actions[i]);
                    assert(worlds[i] == old_worlds[i] && worlds[i + 1] == old_worlds[i + 1]);
                }
            }
            assert(agents[step as int] == chooser && worlds[step as int] == seen);
            assert forall|i: int| 0 <= i < step + 1 implies #[trigger] agents[i].steps(
                agents[i].observe_spec(worlds[i]),
                agents[i + 1],
                actions[i],
            ) by {
                if i < step {
                    assert(actions[i] == old_actions[i]);
                    assert(worlds[i] == old_worlds[i]);
                    assert(agents[i] == old_agents[i] && agents[i + 1] == old_agents[i + 1]);
                }
            }
            assert(run_score::<W, A, J>(worlds, actions, step as nat) == run_score::<W, A, J>(old_worlds, old_actions, step as nat)) by {
                lemma_run_score_prefix::<W, A, J>(old_worlds, old_actions, worlds, actions, step as nat);
            }
        }
        step += 1;
    }
    let r = judge.score();
    assert(is_run(start, worlds, actions, LIFE_SPAN as nat));
    assert(chooses(agent0, worlds, actions, agents, LIFE_SPAN as nat));
    r
}

/// The score of the first `n` steps depends only on those steps.
proof fn lemma_run_score_prefix<W: World, A: Actuator<W>, J: Judge<W, A>>(
    w1: Seq<W>,
    a1: Seq<A>,
    w2: Seq<W>,
    a2: Seq<A>,
    n: nat,
)
    requires
        n <= w1.len(),
        n <= w2.len(),
        n <= a1.len(),
        n <= a2.len(),
        forall|i: int| 0 <= i < n ==> w1[i] == w2[i] && a1[i] == a2[i],
    ensures
        run_score::<W, A, J>(w1, a1, n) == run_score::<W, A, J>(w2, a2, n),
    decreases n,
{
    if n > 0 {
        lemma_run_score_prefix::<W, A, J>(w1, a1, w2, a2, (n - 1) as nat);
    }
}

} // verus!
