//! AND-OR search for conditional plans in nondeterministic worlds.

pub mod vaccum_cleaner;

use vstd::prelude::*;
use vstd::set_lib::*;

verus! {

/// A state of a nondeterministic world with finitely many states.
pub trait State: Sized {
    type Action;

    /// Every state of the world.
    spec fn universe() -> Set<Self>;

    /// The actions allowed in the state, in the order they are tried.
    spec fn actions_spec(&self) -> Seq<Self::Action>;

    /// The states an action may lead to.
    spec fn results_spec(&self, action: Self::Action) -> Seq<Self>;

    /// Whether the state is a goal.
    spec fn successful_spec(&self) -> bool;

    /// The world has finitely many states.
    proof fn lemma_universe(s: Self)
        ensures
            Self::universe().finite(),
            Self::universe().contains(s),
    ;

    /// The actions allowed in the state.
    fn actions(&self) -> (r: Vec<Self::Action>)
        ensures
            r@ == self.actions_spec(),
    ;

    /// The states `action` may lead to.
    fn results(&self, action: &Self::Action) -> (r: Vec<Self>)
        ensures
            r@ == self.results_spec(*action),
    ;

    /// Whether the state is a goal.
    fn successful(&self) -> (r: bool)
        ensures
            r == self.successful_spec(),
    ;

    /// Whether the two states are the same.
    fn same(&self, other: &Self) -> (r: bool)
        ensures
            r == (*self == *other),
    ;

    /// A copy of the state.
    fn duplicate(&self) -> (r: Self)
        ensures
            r == *self,
    ;

    /// A copy of the action.
    fn duplicate_action(action: &Self::Action) -> (r: Self::Action)
        ensures
            r == *action,
    ;
}

/// A conditional plan: done, or an action followed by a plan for each state
/// it may lead to.
pub enum Plan<S, A> {
    Goal,
    Or(A, Box<Plan<S, A>>),
    And(Vec<(S, Plan<S, A>)>),
}

impl<S, A> Plan<S, A> {
    /// The plan that does nothing: the state is a goal.
    pub fn goal() -> (r: Self)
        ensures
            r is Goal,
    {
        Plan::Goal
    }

    /// `action`, then this plan.
    pub fn or(self, action: A) -> (r: Self)
        ensures
            r == Plan::Or(action, Box::new(self)),
    {
        Plan::Or(action, Box::new(self))
    }

    /// A plan for each state in `branches`.
    pub fn and(branches: Vec<(S, Plan<S, A>)>) -> (r: Self)
        ensures
            r == Plan::<S, A>::And(branches),
    {
        Plan::And(branches)
    }
}

/// Why no plan was found.
#[derive(Debug)]
pub enum Error {
    Failure,
}

/// `plan` reaches a goal from `s` whatever the world does: `Goal` at a goal,
/// or an action allowed in `s` followed by a plan for every state it may
/// lead to (see `branches_ok`).
pub open spec fn plan_ok<S: State>(s: S, plan: Plan<S, S::Action>) -> bool
    decreases plan,
{
    match plan {
        Plan::Goal => s.successful_spec(),
        Plan::Or(a, sub) => s.actions_spec().contains(a) && match *sub {
            Plan::And(branches) => forall|r: S| #[trigger] s.results_spec(a).contains(r) ==>
                exists|k: int| 0 <= k < branches@.len() && (#[trigger] branches@[k]).0 == r
                    && plan_ok(r, branches@[k].1),
            _ => false,
        },
        Plan::And(_) => false,
    }
}

/// `plan` is an `And` with a reaching plan for every state in `results`.
pub open spec fn branches_ok<S: State>(results: Seq<S>, plan: Plan<S, S::Action>) -> bool {
    match plan {
        Plan::And(branches) => forall|r: S| #[trigger] results.contains(r) ==>
            exists|k: int| 0 <= k < branches@.len() && (#[trigger] branches@[k]).0 == r
                && plan_ok(r, branches@[k].1),
        _ => false,
    }
}

/// `plan` reaches a goal from `s` whatever the world does (as `plan_ok`
/// says), never acting in a state of `avoid` nor, along each way down the
/// plan, in a state it acted in before.
pub open spec fn plan_avoiding<S: State>(s: S, plan: Plan<S, S::Action>, avoid: Set<S>) -> bool
    decreases plan,
{
    match plan {
        Plan::Goal => s.successful_spec(),
        Plan::Or(a, sub) => !avoid.contains(s) && s.actions_spec().contains(a) && match *sub {
            Plan::And(branches) => forall|r: S| #[trigger] s.results_spec(a).contains(r) ==>
                exists|k: int| 0 <= k < branches@.len() && (#[trigger] branches@[k]).0 == r
                    && plan_avoiding(r, branches@[k].1, avoid.insert(s)),
            _ => false,
        },
        Plan::And(_) => false,
    }
}

/// `plan` is an `And` with a plan for every state in `results` that avoids
/// `avoid` (see `plan_avoiding`).
pub open spec fn branches_avoiding<S: State>(results: Seq<S>, plan: Plan<S, S::Action>, avoid: Set<S>) -> bool {
    match plan {
        Plan::And(branches) => forall|r: S| #[trigger] results.contains(r) ==>
            exists|k: int| 0 <= k < branches@.len() && (#[trigger] branches@[k]).0 == r
                && plan_avoiding(r, branches@[k].1, avoid),
        _ => false,
    }
}

/// The states of `path` as a set.
pub open spec fn seen<S>(path: Seq<S>) -> Set<S> {
    path.to_set()
}

/// A plan for `state` that never goes back to a state of `path`; fails on a
/// state of `path` that is not a goal.
fn or_search<S: State>(state: &S, path: &Vec<S>) -> (r: Result<Plan<S, S::Action>, Error>)
    requires
        seen(path@).subset_of(S::universe()),
        path@.no_duplicates(),
    ensures
        r matches Ok(plan) ==> plan_ok(*state, plan),
        r is Err ==> forall|p: Plan<S, S::Action>| !#[trigger] plan_avoiding(*state, p, seen(path@)),
    decreases S::universe().len() - seen(path@).len(), 1nat,
{
    if state.successful() {
        return Ok(Plan::goal());
    }
    let mut k: usize = 0;
    while k < path.len()
        invariant
            k <= path@.len(),
            forall|j: int| 0 <= j < k ==> path@[j] != *state,
            !state.successful_spec(),
        decreases path.len() - k,
    {
        if path[k].same(state) {
            proof {
                assert(seen(path@).contains(*state));
                assert forall|p: Plan<S, S::Action>| !#[trigger] plan_avoiding(*state, p, seen(path@)) by {
                    match p {
                        Plan::Goal => {
                            assert(!state.successful_spec());
                        },
                        Plan::Or(a, sub) => {
                            assert(seen(path@).contains(*state));
                        },
                        Plan::And(_) => {},
                    }
                }
            }
            return Err(Error::Failure);
        }
        k += 1;
    }
    proof {
        S::lemma_universe(*state);
        path@.unique_seq_to_set();
        assert(!path@.contains(*state));
    }
    let mut extended: Vec<S> = Vec::new();
    let mut j: usize = 0;
    while j < path.len()
        invariant
            j <= path@.len(),
            extended@ == path@.subrange(0, j as int),
        decreases path.len() - j,
    {
        extended.push(path[j].duplicate());
        assert(path@.subrange(0, j + 1) =~= path@.subrange(0, j as int).push(path@[j as int]));
        j += 1;
    }
    extended.push(state.duplicate());
    proof {
        assert(path@.subrange(0, path@.len() as int) =~= path@);
        assert(extended@ == path@.push(*state));
        assert(extended@.no_duplicates()) by {
            assert forall|a: int, b: int| 0 <= a < b < extended@.len() implies extended@[a] != extended@[b] by {
                if b == extended@.len() - 1 {
                    assert(path@.contains(extended@[a]));
                }
            }
        }
        assert(seen(extended@) =~= seen(path@).insert(*state)) by {
            path@.lemma_push_to_set_commute(*state);
        }
        lemma_len_subset(seen(extended@), S::universe());
        extended@.unique_seq_to_set();
    }
    let actions = state.actions();
    let mut i: usize = 0;
    while i < actions.len()
        invariant
            i <= actions@.len(),
            actions@ == state.actions_spec(),
            extended@ == path@.push(*state),
            extended@.no_duplicates(),
            seen(extended@) == seen(path@).insert(*state),
            seen(extended@).subset_of(S::universe()),
            seen(extended@).len() == seen(path@).len() + 1,
            seen(extended@).len() <= S::universe().len(),
            S::universe().finite(),
            !state.successful_spec(),
            forall|j: int, p: Plan<S, S::Action>| 0 <= j < i ==> !#[trigger] branches_avoiding(
                state.results_spec(actions@[j]),
                p,
                seen(extended@),
            ),
        decreases actions.len() - i,
    {
        let action = S::duplicate_action(&actions[i]);
        match and_search(state, action, &extended) {
            Ok(plan) => {
                let r = plan.or(S::duplicate_action(&actions[i]));
                proof {
                    assert(state.actions_spec().contains(actions@[i as int]));
                }
                return Ok(r);
            },
            Err(_) => {},
        }
        i += 1;
    }
    proof {
        assert forall|p: Plan<S, S::Action>| !#[trigger] plan_avoiding(*state, p, seen(path@)) by {
            match p {
                Plan::Goal => {},
                Plan::Or(a, sub) => {
                    if state.actions_spec().contains(a) {
                        let j = choose|j: int| 0 <= j < actions@.len() && actions@[j] == a;
                        assert(!branches_avoiding(state.results_spec(actions@[j]), *sub, seen(extended@)));
                    }
                },
                Plan::And(_) => {},
            }
        }
    }
    Err(Error::Failure)
}

/// A plan for every state `action` may lead to from `state`, each never going
/// back to a state of `path`.
fn and_search<S: State>(state: &S, action: S::Action, path: &Vec<S>) -> (r: Result<Plan<S, S::Action>, Error>)
    requires
        seen(path@).subset_of(S::universe()),
        path@.no_duplicates(),
        seen(path@).len() >= 1,
        seen(path@).len() <= S::universe().len(),
    ensures
        r matches Ok(plan) ==> branches_ok(state.results_spec(action), plan),
        r is Err ==> forall|p: Plan<S, S::Action>| !#[trigger] branches_avoiding(state.results_spec(action), p, seen(path@)),
    decreases S::universe().len() - seen(path@).len() + 1, 0nat,
{
    let results = state.results(&action);
    let mut branches: Vec<(S, Plan<S, S::Action>)> = Vec::new();
    let mut i: usize = 0;
    while i < results.len()
        invariant
            i <= results@.len(),
            results@ == state.results_spec(action),
            seen(path@).subset_of(S::universe()),
            path@.no_duplicates(),
            seen(path@).len() >= 1,
            seen(path@).len() <= S::universe().len(),
            branches@.len() == i,
            forall|k: int| 0 <= k < i ==> (#[trigger] branches@[k]).0 == results@[k] && plan_ok(results@[k], branches@[k].1),
        decreases results.len() - i,
    {
        let s = results[i].duplicate();
        match or_search(&s, path) {
            Ok(plan) => {
                branches.push((s, plan));
            },
            Err(e) => {
                proof {
                    assert(results@.contains(s));
                    assert forall|p: Plan<S, S::Action>| !#[trigger] branches_avoiding(state.results_spec(action), p, seen(path@)) by {
                        match p {
                            Plan::And(bs) => {
                                if branches_avoiding(state.results_spec(action), p, seen(path@)) {
                                    let k = choose|k: int| 0 <= k < bs@.len() && (#[trigger] bs@[k]).0 == s
                                        && plan_avoiding(s, bs@[k].1, seen(path@));
                                    assert(!plan_avoiding(s, bs@[k].1, seen(path@)));
                                }
                            },
                            _ => {},
                        }
                    }
                }
                return Err(e);
            },
        }
        i += 1;
    }
    proof {
        assert forall|s: S| #[trigger] state.results_spec(action).contains(s) implies
            exists|k: int| 0 <= k < branches@.len() && (#[trigger] branches@[k]).0 == s && plan_ok(s, branches@[k].1) by {
            let k = choose|k: int| 0 <= k < results@.len() && results@[k] == s;
            assert(branches@[k].0 == s);
        }
    }
    let ghost bs = branches;
    let plan = Plan::and(branches);
    proof {
        assert(plan == Plan::<S, S::Action>::And(bs));
        assert forall|s: S| #[trigger] state.results_spec(action).contains(s) implies
            exists|k: int| 0 <= k < bs@.len() && (#[trigger] bs@[k]).0 == s && plan_ok(s, bs@[k].1) by {
            assert(results@.contains(s));
        }
        assert(plan is And);
        assert(plan->And_0 == bs);
        assert(branches_ok(state.results_spec(action), plan));
    }
    Ok(plan)
}

/// A conditional plan that reaches a goal from `start` whatever the world
/// does, found by depth-first AND-OR search that never revisits a state on
/// the current path.
pub fn and_or_search<S: State>(start: &S) -> (r: Result<Plan<S, S::Action>, Error>)
    ensures
        r matches Ok(plan) ==> plan_ok(*start, plan),
        r is Err ==> forall|p: Plan<S, S::Action>| !#[trigger] plan_avoiding(*start, p, Set::<S>::empty()),
{
    let path: Vec<S> = Vec::new();
    proof {
        assert(seen(path@) =~= Set::<S>::empty());
    }
    or_search(start, &path)
}

} // verus!
