use vstd::prelude::*;
use super::State;
use petgraph::graph::{Graph, NodeIndex};
use petgraph::Directed;

verus! {

/// The state of a square.
#[derive(Debug, Clone, Copy, PartialEq, Eq, Structural, Hash)]
pub enum Cleanliness {
    Clean,
    Dirty,
}

impl Cleanliness {
    /// 1 for clean, 0 for dirty.
    pub fn label(self) -> (r: u8)
        ensures
            r == if self == Cleanliness::Clean { 1u8 } else { 0u8 },
    {
        match self {
            Cleanliness::Clean => 1,
            Cleanliness::Dirty => 0,
        }
    }
}

/// One of the two squares.
#[derive(Debug, Clone, Copy, PartialEq, Eq, Structural, Hash)]
pub enum Pos {
    Left,
    Right,
}

impl Pos {
    /// 0 for the left square, 1 for the right one.
    pub fn label(self) -> (r: u8)
        ensures
            r == if self == Pos::Left { 0u8 } else { 1u8 },
    {
        match self {
            Pos::Left => 0,
            Pos::Right => 1,
        }
    }

    /// The other square.
    pub fn other(self) -> (r: Self)
        ensures
            r != self,
    {
        match self {
            Pos::Left => Pos::Right,
            Pos::Right => Pos::Left,
        }
    }
}

/// What the vacuum cleaner can do.
#[derive(Debug, Clone, Copy, PartialEq, Eq, Structural, Hash)]
pub enum Action {
    Suck,
    Left,
    Right,
}

impl Action {
    /// All the actions: suck, go left, go right.
    pub fn enumerate() -> (r: Vec<Action>)
        ensures
            r@ == seq![Action::Suck, Action::Left, Action::Right],
    {
        let r = vec![Action::Suck, Action::Left, Action::Right];
        assert(r@ =~= seq![Action::Suck, Action::Left, Action::Right]);
        r
    }
}

/// The erratic vacuum world: two squares and the cleaner on one of them.
/// Sucking a dirty square may also clean the other; sucking a clean square
/// may dirty it.
#[derive(Debug, Clone, Copy, PartialEq, Eq, Structural, Hash)]
pub struct Erratic {
    pub left: Cleanliness,
    pub right: Cleanliness,
    pub agent: Pos,
}

/// The state of square `pos`.
pub open spec fn square_spec(e: Erratic, pos: Pos) -> Cleanliness {
    if pos == Pos::Left { e.left } else { e.right }
}

/// `e` with square `pos` in state `c`.
pub open spec fn with_square(e: Erratic, pos: Pos, c: Cleanliness) -> Erratic {
    if pos == Pos::Left { Erratic { left: c, ..e } } else { Erratic { right: c, ..e } }
}

/// The states sucking may lead to: on a clean square, the same state or
/// the square dirtied; on a dirty one, the square cleaned and, when the other
/// square is dirty too, both cleaned.
pub open spec fn suck_results(e: Erratic) -> Seq<Erratic> {
    let pos = e.agent;
    if square_spec(e, pos) == Cleanliness::Clean {
        seq![e, with_square(e, pos, Cleanliness::Dirty)]
    } else if square_spec(e, if pos == Pos::Left { Pos::Right } else { Pos::Left }) == Cleanliness::Dirty {
        seq![with_square(e, pos, Cleanliness::Clean), Erratic { left: Cleanliness::Clean, right: Cleanliness::Clean, ..e }]
    } else {
        seq![with_square(e, pos, Cleanliness::Clean)]
    }
}

/// The eight states of the world.
pub open spec fn all_erratic() -> Set<Erratic> {
    set![
        Erratic { left: Cleanliness::Clean, right: Cleanliness::Clean, agent: Pos::Left },
        Erratic { left: Cleanliness::Clean, right: Cleanliness::Clean, agent: Pos::Right },
        Erratic { left: Cleanliness::Clean, right: Cleanliness::Dirty, agent: Pos::Left },
        Erratic { left: Cleanliness::Clean, right: Cleanliness::Dirty, agent: Pos::Right },
        Erratic { left: Cleanliness::Dirty, right: Cleanliness::Clean, agent: Pos::Left },
        Erratic { left: Cleanliness::Dirty, right: Cleanliness::Clean, agent: Pos::Right },
        Erratic { left: Cleanliness::Dirty, right: Cleanliness::Dirty, agent: Pos::Left },
        Erratic { left: Cleanliness::Dirty, right: Cleanliness::Dirty, agent: Pos::Right },
    ]
}

impl Erratic {
    /// The eight states of the world, the left square, the right square and
    /// the cleaner's square varying in that order, clean and left first.
    pub fn enumerate() -> (r: Vec<Self>)
        ensures
            r@.len() == 8,
            r@.to_set() == all_erratic(),
    {
        let c = Cleanliness::Clean;
        let d = Cleanliness::Dirty;
        let r = vec![
            Erratic { left: c, right: c, agent: Pos::Left },
            Erratic { left: c, right: c, agent: Pos::Right },
            Erratic { left: c, right: d, agent: Pos::Left },
            Erratic { left: c, right: d, agent: Pos::Right },
            Erratic { left: d, right: c, agent: Pos::Left },
            Erratic { left: d, right: c, agent: Pos::Right },
            Erratic { left: d, right: d, agent: Pos::Left },
            Erratic { left: d, right: d, agent: Pos::Right },
        ];
        proof {
            assert forall|e: Erratic| r@.to_set().contains(e) <==> all_erratic().contains(e) by {
                if all_erratic().contains(e) {
                    if e == r@[0] {} else if e == r@[1] { assert(r@.contains(r@[1])); } else if e == r@[2] { assert(r@.contains(r@[2])); }
                    else if e == r@[3] { assert(r@.contains(r@[3])); } else if e == r@[4] { assert(r@.contains(r@[4])); }
                    else if e == r@[5] { assert(r@.contains(r@[5])); } else if e == r@[6] { assert(r@.contains(r@[6])); }
                    else { assert(r@.contains(r@[7])); }
                    assert(r@.contains(r@[0]));
                }
            }
            assert(r@.to_set() =~= all_erratic());
        }
        r
    }

    /// A number for the state, 1 to 8: one for the cleaner on the right, two
    /// for a clean right square, four for a clean left square, plus one.
    pub fn label(self) -> (r: u8)
        ensures
            r == (if self.agent == Pos::Right { 1int } else { 0int }) + (if self.right == Cleanliness::Clean { 2int } else { 0int })
                + (if self.left == Cleanliness::Clean { 4int } else { 0int }) + 1,
    {
        self.agent.label() + 2 * self.right.label() + 4 * self.left.label() + 1
    }

    /// The state of square `pos`.
    pub fn square(self, pos: Pos) -> (r: Cleanliness)
        ensures
            r == square_spec(self, pos),
    {
        match pos {
            Pos::Left => self.left,
            Pos::Right => self.right,
        }
    }

    fn set_square(&mut self, pos: Pos, c: Cleanliness)
        ensures
            *final(self) == with_square(*old(self), pos, c),
    {
        match pos {
            Pos::Left => self.left = c,
            Pos::Right => self.right = c,
        }
    }

    /// The states sucking may lead to (see `suck_results`).
    pub fn clean(self) -> (r: Vec<Self>)
        ensures
            r@ == suck_results(self),
    {
        let pos = self.agent;
        if self.square(pos) == Cleanliness::Clean {
            let mut dumped = self;
            dumped.set_square(pos, Cleanliness::Dirty);
            let r = vec![self, dumped];
            assert(r@ =~= suck_results(self));
            r
        } else {
            let mut results: Vec<Erratic> = Vec::new();
            let mut cleaned = self;
            cleaned.set_square(pos, Cleanliness::Clean);
            results.push(cleaned);
            if self.square(pos.other()) == Cleanliness::Dirty {
                results.push(Erratic { left: Cleanliness::Clean, right: Cleanliness::Clean, ..self });
            }
            assert(results@ =~= suck_results(self));
            results
        }
    }
}

impl State for Erratic {
    type Action = Action;

    open spec fn universe() -> Set<Erratic> {
        all_erratic()
    }

    open spec fn actions_spec(&self) -> Seq<Action> {
        seq![Action::Suck, Action::Left, Action::Right]
    }

    open spec fn results_spec(&self, action: Action) -> Seq<Erratic> {
        match action {
            Action::Suck => suck_results(*self),
            Action::Left => seq![Erratic { agent: Pos::Left, ..*self }],
            Action::Right => seq![Erratic { agent: Pos::Right, ..*self }],
        }
    }

    open spec fn successful_spec(&self) -> bool {
        self.left == Cleanliness::Clean && self.right == Cleanliness::Clean
    }

    proof fn lemma_universe(s: Erratic) {
        assert(all_erratic().contains(s));
    }

    fn actions(&self) -> (r: Vec<Action>) {
        Action::enumerate()
    }

    fn results(&self, action: &Action) -> (r: Vec<Erratic>) {
        match action {
            Action::Suck => self.clean(),
            Action::Left => {
                let r = vec![Erratic { agent: Pos::Left, ..*self }];
                assert(r@ =~= seq![Erratic { agent: Pos::Left, ..*self }]);
                r
            },
            Action::Right => {
                let r = vec![Erratic { agent: Pos::Right, ..*self }];
                assert(r@ =~= seq![Erratic { agent: Pos::Right, ..*self }]);
                r
            },
        }
    }

    fn successful(&self) -> (r: bool) {
        self.left == Cleanliness::Clean && self.right == Cleanliness::Clean
    }

    fn same(&self, other: &Self) -> (r: bool) {
        *self == *other
    }

    fn duplicate(&self) -> (r: Self) {
        *self
    }

    fn duplicate_action(action: &Action) -> (r: Action) {
        *action
    }
}

/// The states of a belief state after `action`: every state any of its
/// states may lead to, each once.
pub fn belief_results(belief: &Vec<Erratic>, action: Action) -> (r: Vec<Erratic>)
    ensures
        r@.no_duplicates(),
        forall|e: Erratic| r@.contains(e) <==> exists|k: int| 0 <= k < belief@.len() && #[trigger] belief@[k].results_spec(action).contains(e),
{
    let mut r: Vec<Erratic> = Vec::new();
    let mut i: usize = 0;
    while i < belief.len()
        invariant
            i <= belief@.len(),
            r@.no_duplicates(),
            forall|e: Erratic| r@.contains(e) <==> exists|k: int| 0 <= k < i && #[trigger] belief@[k].results_spec(action).contains(e),
        decreases belief.len() - i,
    {
        let rs = belief[i].results(&action);
        let mut j: usize = 0;
        while j < rs.len()
            invariant
                i < belief@.len(),
                j <= rs@.len(),
                rs@ == belief@[i as int].results_spec(action),
                r@.no_duplicates(),
                forall|e: Erratic| r@.contains(e) <==> (exists|k: int| 0 <= k < i && #[trigger] belief@[k].results_spec(action).contains(e))
                    || rs@.subrange(0, j as int).contains(e),
            decreases rs.len() - j,
        {
            let e = rs[j];
            let mut found = false;
            let mut m: usize = 0;
            while m < r.len()
                invariant
                    m <= r@.len(),
                    found == exists|k: int| 0 <= k < m && r@[k] == e,
                decreases r.len() - m,
            {
                if r[m] == e {
                    found = true;
                }
                m += 1;
            }
            let ghost before = r@;
            if !found {
                r.push(e);
            }
            proof {
                assert(rs@.subrange(0, j + 1) =~= rs@.subrange(0, j as int).push(e));
                assert forall|x: Erratic| r@.contains(x) <==> (exists|k: int| 0 <= k < i && #[trigger] belief@[k].results_spec(action).contains(x))
                    || rs@.subrange(0, j + 1).contains(x) by {
                    if r@.contains(x) && !before.contains(x) {
                        assert(x == e);
                        assert(rs@.subrange(0, j + 1)[j as int] == e);
                    }
                    if before.contains(x) {
                        let k = choose|k: int| 0 <= k < before.len() && before[k] == x;
                        assert(r@[k] == x);
                    }
                    if rs@.subrange(0, j + 1).contains(x) {
                        let k = choose|k: int| 0 <= k < j + 1 && #[trigger] rs@.subrange(0, j + 1)[k] == x;
                        if k < j {
                            assert(rs@.subrange(0, j as int)[k] == x);
                        } else if !before.contains(x) {
                            assert(r@[r@.len() - 1] == x);
                        }
                    }
                }
            }
            j += 1;
        }
        proof {
            assert(rs@.subrange(0, rs@.len() as int) =~= rs@);
            assert forall|x: Erratic| r@.contains(x) <==> exists|k: int| 0 <= k < i + 1 && #[trigger] belief@[k].results_spec(action).contains(x) by {
                if exists|k: int| 0 <= k < i + 1 && #[trigger] belief@[k].results_spec(action).contains(x) {
                    let k = choose|k: int| 0 <= k < i + 1 && #[trigger] belief@[k].results_spec(action).contains(x);
                    if k < i {
                        assert(exists|k2: int| 0 <= k2 < i && #[trigger] belief@[k2].results_spec(action).contains(x));
                    }
                }
                if (exists|k: int| 0 <= k < i && #[trigger] belief@[k].results_spec(action).contains(x)) {
                    let k = choose|k: int| 0 <= k < i && #[trigger] belief@[k].results_spec(action).contains(x);
                    assert(exists|k2: int| 0 <= k2 < i + 1 && #[trigger] belief@[k2].results_spec(action).contains(x));
                }
            }
        }
        i += 1;
    }
    r
}

/// The labels of the states of a belief state, in increasing order.
pub fn labels(belief: &Vec<Erratic>) -> (r: Vec<u8>)
    ensures
        r@.len() == belief@.len(),
        forall|a: int, b: int| 0 <= a < b < r@.len() ==> r@[a] <= r@[b],
        r@.to_multiset() == belief@.map_values(|e: Erratic| label_spec(e)).to_multiset(),
{
    let mut r: Vec<u8> = Vec::new();
    let mut i: usize = 0;
    assert(r@ =~= belief@.subrange(0, 0).map_values(|e: Erratic| label_spec(e)));
    while i < belief.len()
        invariant
            i <= belief@.len(),
            r@.len() == i,
            forall|a: int, b: int| 0 <= a < b < r@.len() ==> r@[a] <= r@[b],
            r@.to_multiset() == belief@.subrange(0, i as int).map_values(|e: Erratic| label_spec(e)).to_multiset(),
        decreases belief.len() - i,
    {
        let l = belief[i].label();
        let mut pos: usize = 0;
        while pos < r.len() && r[pos] <= l
            invariant
                pos <= r@.len(),
                forall|k: int| 0 <= k < pos ==> r@[k] <= l,
            decreases r.len() - pos,
        {
            pos += 1;
        }
        let ghost before = r@;
        r.insert(pos, l);
        proof {
            before.insert_ensures(pos as int, l);
            assert forall|a: int, b: int| 0 <= a < b < r@.len() implies r@[a] <= r@[b] by {
                if b < pos {
                } else if b == pos {
                    assert(r@[a] == before[a]);
                } else if a < pos {
                    assert(r@[b] == before[b - 1]);
                    if b - 1 >= pos {
                        assert(!(before[pos as int] <= l));
                    }
                } else if a == pos {
                    assert(r@[b] == before[b - 1]);
                    assert(!(before[pos as int] <= l));
                    assert(before[pos as int] <= before[b - 1]);
                } else {
                    assert(r@[a] == before[a - 1] && r@[b] == before[b - 1]);
                }
            }
            vstd::seq_lib::to_multiset_insert(before, pos as int, l);
            let s0 = belief@.subrange(0, i as int).map_values(|e: Erratic| label_spec(e));
            let s1 = belief@.subrange(0, i + 1).map_values(|e: Erratic| label_spec(e));
            assert(s1 =~= s0.push(l));
            vstd::seq_lib::to_multiset_build(s0, l);
        }
        i += 1;
    }
    assert(belief@.subrange(0, belief@.len() as int) =~= belief@);
    r
}

/// The label of a state.
pub open spec fn label_spec(e: Erratic) -> u8 {
    ((if e.agent == Pos::Right { 1int } else { 0int }) + (if e.right == Cleanliness::Clean { 2int } else { 0int })
        + (if e.left == Cleanliness::Clean { 4int } else { 0int }) + 1) as u8
}

/// Different states have different labels.
proof fn lemma_label_injective(x: Erratic, y: Erratic)
    requires
        label_spec(x) == label_spec(y),
    ensures
        x == y,
{
}

/// Each label is between 1 and 8.
proof fn lemma_label_range(x: Erratic)
    ensures
        1 <= label_spec(x) <= 8,
{
}

/// Each entry is larger than the one before.
pub open spec fn increasing(s: Seq<u8>) -> bool {
    forall|a: int, b: int| 0 <= a < b < s.len() ==> s[a] < s[b]
}

/// The labels a belief state with labels `ls` may lead to by `action`: those
/// of the results of its states.
pub open spec fn labels_after(ls: Seq<u8>, action: Action) -> Set<u8> {
    Set::new(
        |m: u8|
            exists|x: Erratic, e: Erratic| #[trigger] x.results_spec(action).contains(e) && ls.contains(label_spec(x)) && label_spec(e) == m,
    )
}

/// `ls` names the states of `belief`, each once, in increasing order.
pub open spec fn names(ls: Seq<u8>, belief: Seq<Erratic>) -> bool {
    &&& increasing(ls)
    &&& forall|k: int| 0 <= k < ls.len() ==> 1 <= #[trigger] ls[k] <= 8
    &&& forall|m: u8| ls.contains(m) <==> exists|k: int| 0 <= k < belief.len() && label_spec(#[trigger] belief[k]) == m
}

/// The labels of a belief state without repeated states, each once, in
/// increasing order.
fn belief_labels(belief: &Vec<Erratic>) -> (r: Vec<u8>)
    requires
        belief@.no_duplicates(),
    ensures
        names(r@, belief@),
{
    let r = labels(belief);
    proof {
        let f = |e: Erratic| label_spec(e);
        let mapped = belief@.map_values(f);
        assert(vstd::relations::injective(f)) by {
            assert forall|x: Erratic, y: Erratic| #[trigger] f(x) == #[trigger] f(y) implies x == y by {
                lemma_label_injective(x, y);
            }
        }
        belief@.lemma_no_duplicates_injective(f);
        mapped.lemma_multiset_has_no_duplicates();
        assert forall|x: u8| r@.to_multiset().contains(x) implies r@.to_multiset().count(x) == 1 by {}
        r@.lemma_multiset_has_no_duplicates_conv();
        assert forall|m: u8| r@.contains(m) <==> mapped.contains(m) by {
            vstd::seq_lib::to_multiset_contains(r@, m);
            vstd::seq_lib::to_multiset_contains(mapped, m);
        }
        assert forall|m: u8| mapped.contains(m) <==> exists|k: int| 0 <= k < belief@.len() && label_spec(#[trigger] belief@[k]) == m by {
            if mapped.contains(m) {
                let j = choose|j: int| 0 <= j < mapped.len() && mapped[j] == m;
                assert(label_spec(belief@[j]) == m);
            }
            if exists|k: int| 0 <= k < belief@.len() && label_spec(#[trigger] belief@[k]) == m {
                let k = choose|k: int| 0 <= k < belief@.len() && label_spec(#[trigger] belief@[k]) == m;
                assert(mapped[k] == m);
            }
        }
        assert forall|m: u8| r@.contains(m) <==> exists|k: int| 0 <= k < belief@.len() && label_spec(#[trigger] belief@[k]) == m by {
            assert(r@.contains(m) <==> mapped.contains(m));
            assert(mapped.contains(m) <==> exists|k: int| 0 <= k < belief@.len() && label_spec(#[trigger] belief@[k]) == m);
        }
        assert forall|k: int| 0 <= k < r@.len() implies 1 <= #[trigger] r@[k] <= 8 by {
            let m = r@[k];
            assert(r@.contains(m));
            assert(mapped.contains(m) <==> r@.contains(m));
            let j = choose|j: int| 0 <= j < mapped.len() && mapped[j] == m;
            lemma_label_range(belief@[j]);
        }
        assert forall|a: int, b: int| 0 <= a < b < r@.len() implies r@[a] < r@[b] by {
            assert(r@[a] <= r@[b]);
            assert(r@[a] != r@[b]);
        }
    }
    r
}

/// 1 when `v` is among the labels, else 0.
spec fn bit(s: Seq<u8>, v: u8) -> int {
    if s.contains(v) { 1 } else { 0 }
}

/// The labels as a number below 256, one binary digit per label.
spec fn code(s: Seq<u8>) -> int {
    bit(s, 1) + 2 * bit(s, 2) + 4 * bit(s, 3) + 8 * bit(s, 4) + 16 * bit(s, 5) + 32 * bit(s, 6) + 64 * bit(s, 7) + 128 * bit(
        s,
        8,
    )
}

/// Two increasing sequences with the same entries are the same.
proof fn lemma_increasing_unique(s: Seq<u8>, t: Seq<u8>)
    requires
        increasing(s),
        increasing(t),
        forall|m: u8| s.contains(m) <==> t.contains(m),
    ensures
        s == t,
    decreases s.len(),
{
    if s.len() == 0 {
        if t.len() > 0 {
            assert(t.contains(t[0]));
        }
        assert(s =~= t);
    } else {
        assert(s.contains(s[0]));
        assert(t.len() > 0);
        assert(t.contains(t[0]));
        let j = choose|j: int| 0 <= j < s.len() && s[j] == t[0];
        let k = choose|k: int| 0 <= k < t.len() && t[k] == s[0];
        assert(s[0] == t[0]) by {
            if j > 0 {
                assert(s[0] < s[j]);
            }
            if k > 0 {
                assert(t[0] < t[k]);
            }
        }
        let s1 = s.drop_first();
        let t1 = t.drop_first();
        assert forall|m: u8| s1.contains(m) <==> t1.contains(m) by {
            if s1.contains(m) {
                let a = choose|a: int| 0 <= a < s1.len() && s1[a] == m;
                assert(s[a + 1] == m && s[0] < s[a + 1]);
                assert(t.contains(m));
                let b = choose|b: int| 0 <= b < t.len() && t[b] == m;
                assert(b > 0);
                assert(t1[b - 1] == m);
            }
            if t1.contains(m) {
                let b = choose|b: int| 0 <= b < t1.len() && t1[b] == m;
                assert(t[b + 1] == m && t[0] < t[b + 1]);
                assert(s.contains(m));
                let a = choose|a: int| 0 <= a < s.len() && s[a] == m;
                assert(a > 0);
                assert(s1[a - 1] == m);
            }
        }
        lemma_increasing_unique(s1, t1);
        assert(s =~= seq![s[0]] + s1);
        assert(t =~= seq![t[0]] + t1);
    }
}

/// Increasing labels from 1 to 8 are told apart by their numbers.
proof fn lemma_code_injective(s: Seq<u8>, t: Seq<u8>)
    requires
        increasing(s),
        increasing(t),
        forall|k: int| 0 <= k < s.len() ==> 1 <= #[trigger] s[k] <= 8,
        forall|k: int| 0 <= k < t.len() ==> 1 <= #[trigger] t[k] <= 8,
        code(s) == code(t),
    ensures
        s == t,
{
    assert(bit(s, 1) == bit(t, 1) && bit(s, 2) == bit(t, 2) && bit(s, 3) == bit(t, 3) && bit(s, 4) == bit(t, 4)
        && bit(s, 5) == bit(t, 5) && bit(s, 6) == bit(t, 6) && bit(s, 7) == bit(t, 7) && bit(s, 8) == bit(t, 8));
    assert forall|m: u8| s.contains(m) <==> t.contains(m) by {
        if s.contains(m) {
            let a = choose|a: int| 0 <= a < s.len() && s[a] == m;
            assert(1 <= s[a] <= 8);
        }
        if t.contains(m) {
            let b = choose|b: int| 0 <= b < t.len() && t[b] == m;
            assert(1 <= t[b] <= 8);
        }
        if 1 <= m <= 8 {
            assert(bit(s, m) == bit(t, m));
        }
    }
    lemma_increasing_unique(s, t);
}

/// At most 256 numbers lie below 256.
proof fn lemma_codes_bound(codes: Set<int>)
    requires
        forall|c: int| codes.contains(c) ==> 0 <= c < 256,
    ensures
        codes.finite(),
        codes.len() <= 256,
{
    vstd::set_lib::lemma_int_range(0, 256);
    vstd::set_lib::lemma_len_subset(codes, vstd::set_lib::set_int_range(0, 256));
}

/// Labels from 1 to 8 in increasing order.
pub open spec fn label_seq(s: Seq<u8>) -> bool {
    &&& increasing(s)
    &&& forall|k: int| 0 <= k < s.len() ==> 1 <= #[trigger] s[k] <= 8
}

/// The edge joins two of the nodes, and the labels of its target are those
/// its action may lead to from its source.
pub open spec fn edge_ok(nodes: Seq<Vec<u8>>, e: (usize, usize, Action)) -> bool {
    &&& e.0 < nodes.len()
    &&& e.1 < nodes.len()
    &&& nodes[e.1 as int]@.to_set() == labels_after(nodes[e.0 as int]@, e.2)
}

/// Some edge leaves node `i` by `action`.
pub open spec fn has_edge(edges: Seq<(usize, usize, Action)>, i: int, action: Action) -> bool {
    exists|e: int| #![trigger edges[e]] 0 <= e < edges.len() && edges[e].0 == i && edges[e].2 == action
}

/// Some edge from a node before node `j` leads to it.
pub open spec fn reached(edges: Seq<(usize, usize, Action)>, j: int) -> bool {
    exists|e: int| #![trigger edges[e]] 0 <= e < edges.len() && edges[e].1 == j && edges[e].0 < j
}

/// Some entry of the frontier is node `i`.
spec fn in_frontier(frontier: Seq<(usize, Vec<Erratic>)>, i: int) -> bool {
    exists|f: int| #![trigger frontier[f]] 0 <= f < frontier.len() && frontier[f].0 == i
}

/// The belief states met while exploring, each named by its labels, and the
/// actions between them: edge `(from, to, action)` leads from node `from` to
/// node `to` by `action`.
struct BeliefGraph {
    pub nodes: Vec<Vec<u8>>,
    pub edges: Vec<(usize, usize, Action)>,
}

/// Whether the labels are the same.
fn same_labels(a: &Vec<u8>, b: &Vec<u8>) -> (r: bool)
    ensures
        r == (a@ == b@),
{
    if a.len() != b.len() {
        return false;
    }
    let mut i: usize = 0;
    while i < a.len()
        invariant
            a@.len() == b@.len(),
            i <= a@.len(),
            forall|k: int| 0 <= k < i ==> a@[k] == b@[k],
        decreases a.len() - i,
    {
        if a[i] != b[i] {
            return false;
        }
        i += 1;
    }
    assert(a@ =~= b@);
    true
}

/// The node named by `ls`, if there is one.
fn find_node(nodes: &Vec<Vec<u8>>, ls: &Vec<u8>) -> (r: Option<usize>)
    ensures
        r matches Some(i) ==> i < nodes@.len() && nodes@[i as int]@ == ls@,
        r is None ==> forall|i: int| 0 <= i < nodes@.len() ==> nodes@[i]@ != ls@,
{
    let mut i: usize = 0;
    while i < nodes.len()
        invariant
            i <= nodes@.len(),
            forall|k: int| 0 <= k < i ==> nodes@[k]@ != ls@,
        decreases nodes.len() - i,
    {
        if same_labels(&nodes[i], ls) {
            return Some(i);
        }
        i += 1;
    }
    None
}

/// The labels of the results of a belief state are those its action may
/// lead to from its labels.
proof fn lemma_edge(from_ls: Seq<u8>, belief: Seq<Erratic>, succ: Seq<Erratic>, ls: Seq<u8>, action: Action)
    requires
        names(from_ls, belief),
        names(ls, succ),
        forall|e: Erratic| succ.contains(e) <==> exists|k: int| 0 <= k < belief.len() && #[trigger] belief[k].results_spec(action).contains(e),
    ensures
        ls.to_set() == labels_after(from_ls, action),
{
    assert forall|m: u8| ls.to_set().contains(m) <==> labels_after(from_ls, action).contains(m) by {
        if ls.contains(m) {
            let k = choose|k: int| 0 <= k < succ.len() && label_spec(#[trigger] succ[k]) == m;
            let e = succ[k];
            assert(succ.contains(e));
            let j = choose|j: int| 0 <= j < belief.len() && #[trigger] belief[j].results_spec(action).contains(e);
            let x = belief[j];
            assert(from_ls.contains(label_spec(x)));
            assert(x.results_spec(action).contains(e) && from_ls.contains(label_spec(x)) && label_spec(e) == m);
        }
        if labels_after(from_ls, action).contains(m) {
            let (x, e) = choose|x: Erratic, e: Erratic| #[trigger] x.results_spec(action).contains(e) && from_ls.contains(label_spec(x)) && label_spec(e) == m;
            let j = choose|j: int| 0 <= j < belief.len() && label_spec(#[trigger] belief[j]) == label_spec(x);
            lemma_label_injective(belief[j], x);
            assert(belief[j].results_spec(action).contains(e));
            assert(succ.contains(e));
            let k = choose|k: int| 0 <= k < succ.len() && succ[k] == e;
            assert(label_spec(succ[k]) == m);
        }
    }
    assert(ls.to_set() =~= labels_after(from_ls, action));
}

/// Labels from 1 to 8 give a number below 256.
proof fn lemma_code_range(s: Seq<u8>)
    ensures
        0 <= code(s) < 256,
{
}

/// The belief states reachable from `init`, each named by the labels of its
/// states, with an edge for each action: explored depth first, nodes
/// numbered as they are met, the actions of a node tried in the order of
/// `Action::enumerate`.
fn explore_beliefs(init: Vec<Erratic>) -> (g: BeliefGraph)
    requires
        init@.no_duplicates(),
    ensures
        1 <= g.nodes@.len() <= 256,
        names(g.nodes@[0]@, init@),
        forall|i: int| 0 <= i < g.nodes@.len() ==> label_seq(#[trigger] g.nodes@[i]@),
        forall|i: int, j: int| 0 <= i < j < g.nodes@.len() ==> g.nodes@[i]@ != g.nodes@[j]@,
        forall|e: int| 0 <= e < g.edges@.len() ==> edge_ok(g.nodes@, #[trigger] g.edges@[e]),
        forall|i: int, a: Action| 0 <= i < g.nodes@.len() ==> #[trigger] has_edge(g.edges@, i, a),
        forall|j: int| 1 <= j < g.nodes@.len() ==> #[trigger] reached(g.edges@, j),
        g.edges@.len() == 3 * g.nodes@.len(),
{
    let ghost init_v = init@;
    let mut nodes: Vec<Vec<u8>> = Vec::new();
    let mut edges: Vec<(usize, usize, Action)> = Vec::new();
    let init_labels = belief_labels(&init);
    let ghost init_ls = init_labels@;
    nodes.push(init_labels);
    let ghost mut codes: Set<int> = Set::empty().insert(code(init_ls));
    proof {
        lemma_code_range(init_ls);
        assert(nodes@[0]@ == init_ls);
    }
    let mut frontier: Vec<(usize, Vec<Erratic>)> = Vec::new();
    frontier.push((0, init));
    proof {
        assert(frontier@[0].0 == 0);
    }
    let actions = Action::enumerate();
    while frontier.len() > 0
        invariant
            actions@ == seq![Action::Suck, Action::Left, Action::Right],
            1 <= nodes@.len() <= 256,
            nodes@[0]@ == init_ls,
            names(init_ls, init_v),
            forall|i: int| 0 <= i < nodes@.len() ==> label_seq(#[trigger] nodes@[i]@),
            forall|i: int, j: int| 0 <= i < j < nodes@.len() ==> nodes@[i]@ != nodes@[j]@,
            codes.finite(),
            codes.len() == nodes@.len(),
            forall|c: int| codes.contains(c) ==> exists|i: int| 0 <= i < nodes@.len() && code(#[trigger] nodes@[i]@) == c,
            forall|i: int| 0 <= i < nodes@.len() ==> codes.contains(code(#[trigger] nodes@[i]@)),
            forall|e: int| 0 <= e < edges@.len() ==> edge_ok(nodes@, #[trigger] edges@[e]),
            forall|f: int| 0 <= f < frontier@.len() ==> {
                &&& (#[trigger] frontier@[f]).0 < nodes@.len()
                &&& frontier@[f].1@.no_duplicates()
                &&& names(nodes@[frontier@[f].0 as int]@, frontier@[f].1@)
            },
            forall|i: int| 0 <= i < nodes@.len() ==> #[trigger] in_frontier(frontier@, i) || forall|a: Action| #[trigger] has_edge(edges@, i, a),
            forall|j: int| 1 <= j < nodes@.len() ==> #[trigger] reached(edges@, j),
            edges@.len() + 3 * frontier@.len() == 3 * nodes@.len(),
        decreases 256 - nodes@.len(), frontier@.len(),
    {
        let ghost frontier0 = frontier@;
        let ghost n0 = nodes@.len();
        let (from, believe) = frontier.pop().unwrap();
        proof {
            assert(frontier0[frontier0.len() - 1] == (from, believe));
            assert forall|f: int| 0 <= f < frontier@.len() implies #[trigger] frontier@[f] == frontier0[f] by {}
            assert forall|i: int| 0 <= i < nodes@.len() && i != from implies #[trigger] in_frontier(frontier@, i) || forall|a: Action| #[trigger] has_edge(edges@, i, a) by {
                if in_frontier(frontier0, i) {
                    let f = choose|f: int| #![trigger frontier0[f]] 0 <= f < frontier0.len() && frontier0[f].0 == i;
                    assert(f != frontier0.len() - 1);
                    assert(frontier@[f] == frontier0[f]);
                }
            }
        }
        let mut k: usize = 0;
        while k < actions.len()
            invariant
                actions@ == seq![Action::Suck, Action::Left, Action::Right],
                k <= 3,
                from < nodes@.len(),
                believe@.no_duplicates(),
                names(nodes@[from as int]@, believe@),
                n0 <= nodes@.len() <= 256,
                frontier@.len() + n0 == frontier0.len() - 1 + nodes@.len(),
                nodes@[0]@ == init_ls,
                names(init_ls, init_v),
                forall|i: int| 0 <= i < nodes@.len() ==> label_seq(#[trigger] nodes@[i]@),
                forall|i: int, j: int| 0 <= i < j < nodes@.len() ==> nodes@[i]@ != nodes@[j]@,
                codes.finite(),
                codes.len() == nodes@.len(),
                forall|c: int| codes.contains(c) ==> exists|i: int| 0 <= i < nodes@.len() && code(#[trigger] nodes@[i]@) == c,
                forall|i: int| 0 <= i < nodes@.len() ==> codes.contains(code(#[trigger] nodes@[i]@)),
                forall|e: int| 0 <= e < edges@.len() ==> edge_ok(nodes@, #[trigger] edges@[e]),
                forall|f: int| 0 <= f < frontier@.len() ==> {
                    &&& (#[trigger] frontier@[f]).0 < nodes@.len()
                    &&& frontier@[f].1@.no_duplicates()
                    &&& names(nodes@[frontier@[f].0 as int]@, frontier@[f].1@)
                },
                forall|i: int| 0 <= i < nodes@.len() && i != from ==> #[trigger] in_frontier(frontier@, i) || forall|a: Action| #[trigger] has_edge(edges@, i, a),
                forall|j: int| 0 <= j < k ==> #[trigger] has_edge(edges@, from as int, actions@[j]),
                forall|j: int| 1 <= j < nodes@.len() ==> #[trigger] reached(edges@, j),
                edges@.len() + 3 * frontier@.len() + 3 == 3 * nodes@.len() + k,
            decreases 3 - k,
        {
            let action = actions[k];
            let succ = belief_results(&believe, action);
            let ls = belief_labels(&succ);
            proof {
                lemma_edge(nodes@[from as int]@, believe@, succ@, ls@, action);
            }
            let ghost nodes_before = nodes@;
            let ghost edges_before = edges@;
            let ghost frontier_before = frontier@;
            let to: usize = match find_node(&nodes, &ls) {
                Some(i) => i,
                None => {
                    let idx = nodes.len();
                    let ghost c = code(ls@);
                    proof {
                        lemma_code_range(ls@);
                        if codes.contains(c) {
                            let i = choose|i: int| 0 <= i < nodes@.len() && code(#[trigger] nodes@[i]@) == c;
                            lemma_code_injective(nodes@[i]@, ls@);
                        }
                        codes = codes.insert(c);
                        assert forall|x: int| codes.contains(x) implies 0 <= x < 256 by {
                            if x != c {
                                let i = choose|i: int| 0 <= i < nodes@.len() && code(#[trigger] nodes@[i]@) == x;
                                lemma_code_range(nodes@[i]@);
                            }
                        }
                        lemma_codes_bound(codes);
                    }
                    let ghost ls_v = ls@;
                    nodes.push(ls);
                    frontier.push((idx, succ));
                    proof {
                        assert(nodes@[idx as int]@ == ls_v);
                        assert forall|i: int| 0 <= i < nodes_before.len() implies #[trigger] nodes@[i] == nodes_before[i] by {}
                        assert forall|cc: int| codes.contains(cc) implies exists|i: int| 0 <= i < nodes@.len() && code(#[trigger] nodes@[i]@) == cc by {
                            if cc == c {
                                assert(code(nodes@[idx as int]@) == cc);
                            } else {
                                let i = choose|i: int| 0 <= i < nodes_before.len() && code(#[trigger] nodes_before[i]@) == cc;
                                assert(nodes@[i] == nodes_before[i]);
                            }
                        }
                        assert forall|f: int| 0 <= f < frontier_before.len() implies #[trigger] frontier@[f] == frontier_before[f] by {}
                        assert(frontier@[frontier@.len() - 1] == (idx, succ));
                        assert(in_frontier(frontier@, idx as int));
                    }
                    idx
                },
            };
            proof {
                assert(nodes@[to as int]@ == ls@);
            }
            edges.push((from, to, action));
            proof {
                let n = nodes@.len();
                assert(edges@[edges@.len() - 1] == (from, to, action));
                assert forall|e: int| 0 <= e < edges_before.len() implies #[trigger] edges@[e] == edges_before[e] by {}
                assert forall|e: int| 0 <= e < edges@.len() implies edge_ok(nodes@, #[trigger] edges@[e]) by {
                    if e < edges_before.len() {
                        let ed = edges_before[e];
                        assert(edge_ok(nodes_before, ed));
                        assert(nodes@[ed.0 as int] == nodes_before[ed.0 as int]);
                        assert(nodes@[ed.1 as int] == nodes_before[ed.1 as int]);
                    } else {
                        assert(nodes@[to as int]@.to_set() == ls@.to_set());
                    }
                }
                assert forall|i: int| 0 <= i < n && i != from implies #[trigger] in_frontier(frontier@, i) || forall|a: Action| #[trigger] has_edge(edges@, i, a) by {
                    if i < nodes_before.len() {
                        if in_frontier(frontier_before, i) {
                            let f = choose|f: int| #![trigger frontier_before[f]] 0 <= f < frontier_before.len() && frontier_before[f].0 == i;
                            assert(frontier@[f] == frontier_before[f]);
                        } else {
                            assert forall|a: Action| #[trigger] has_edge(edges@, i, a) by {
                                assert(has_edge(edges_before, i, a));
                                let e = choose|e: int| #![trigger edges_before[e]] 0 <= e < edges_before.len() && edges_before[e].0 == i && edges_before[e].2 == a;
                                assert(edges@[e] == edges_before[e]);
                            }
                        }
                    }
                }
                assert forall|j: int| 0 <= j < k + 1 implies #[trigger] has_edge(edges@, from as int, actions@[j]) by {
                    if j < k {
                        assert(has_edge(edges_before, from as int, actions@[j]));
                        let e = choose|e: int| #![trigger edges_before[e]] 0 <= e < edges_before.len() && edges_before[e].0 == from && edges_before[e].2 == actions@[j];
                        assert(edges@[e] == edges_before[e]);
                    } else {
                        assert(edges@[edges@.len() - 1] == (from, to, action));
                    }
                }
                assert forall|j: int| 1 <= j < n implies #[trigger] reached(edges@, j) by {
                    if j < nodes_before.len() {
                        assert(reached(edges_before, j));
                        let e = choose|e: int| #![trigger edges_before[e]] 0 <= e < edges_before.len() && edges_before[e].1 == j && edges_before[e].0 < j;
                        assert(edges@[e] == edges_before[e]);
                    } else {
                        assert(j == to);
                        assert(edges@[edges@.len() - 1] == (from, to, action));
                    }
                }
                assert forall|f: int| 0 <= f < frontier@.len() implies {
                    &&& (#[trigger] frontier@[f]).0 < nodes@.len()
                    &&& frontier@[f].1@.no_duplicates()
                    &&& names(nodes@[frontier@[f].0 as int]@, frontier@[f].1@)
                } by {
                    if f < frontier_before.len() {
                        assert(frontier@[f] == frontier_before[f]);
                        assert(nodes@[frontier@[f].0 as int] == nodes_before[frontier@[f].0 as int]);
                    }
                }
            }
            k += 1;
        }
        proof {
            assert forall|i: int| 0 <= i < nodes@.len() implies #[trigger] in_frontier(frontier@, i) || forall|a: Action| #[trigger] has_edge(edges@, i, a) by {
                if i == from {
                    assert forall|a: Action| #[trigger] has_edge(edges@, i, a) by {
                        if a == Action::Suck {
                            assert(has_edge(edges@, from as int, actions@[0]));
                        } else if a == Action::Left {
                            assert(has_edge(edges@, from as int, actions@[1]));
                        } else {
                            assert(has_edge(edges@, from as int, actions@[2]));
                        }
                    }
                }
            }
        }
    }
    proof {
        assert forall|i: int, a: Action| 0 <= i < nodes@.len() implies #[trigger] has_edge(edges@, i, a) by {
            assert(!in_frontier(frontier@, i));
        }
    }
    BeliefGraph { nodes, edges }
}

/// The graph of belief states: each node weighted by the labels of its
/// states, each edge by the action it stands for.
pub type Beliefs = Graph<Vec<u8>, Action, Directed>;

/// The node weights of the graph, in index order.
pub uninterp spec fn belief_nodes(g: Beliefs) -> Seq<Seq<u8>>;

/// The edges of the graph in index order, as (source, target, weight).
pub uninterp spec fn belief_edges(g: Beliefs) -> Seq<(usize, usize, Action)>;

/// `Graph::new`: a graph without nodes or edges.
#[verifier::external_body]
fn beliefs_new() -> (g: Beliefs)
    ensures
        belief_nodes(g) == Seq::<Seq<u8>>::empty(),
        belief_edges(g) == Seq::<(usize, usize, Action)>::empty(),
{
    Graph::new()
}

/// `Graph::add_node`: adds a node weighted `labels` with the next index and
/// returns that index. It panics once the indices of `u32` are used up,
/// which the `requires` rules out.
#[verifier::external_body]
fn beliefs_add_node(g: &mut Beliefs, labels: Vec<u8>) -> (r: usize)
    requires
        belief_nodes(*old(g)).len() < u32::MAX,
    ensures
        r == belief_nodes(*old(g)).len(),
        belief_nodes(*final(g)) == belief_nodes(*old(g)).push(labels@),
        belief_edges(*final(g)) == belief_edges(*old(g)),
{
    g.add_node(labels).index()
}

/// `Graph::add_edge`: adds an edge from node `a` to node `b` weighted
/// `action`, after the others. It panics when a node does not exist or the
/// edge indices of `u32` are used up, which the `requires` rules out.
#[verifier::external_body]
fn beliefs_add_edge(g: &mut Beliefs, a: usize, b: usize, action: Action)
    requires
        a < belief_nodes(*old(g)).len(),
        b < belief_nodes(*old(g)).len(),
        belief_edges(*old(g)).len() < u32::MAX,
    ensures
        belief_nodes(*final(g)) == belief_nodes(*old(g)),
        belief_edges(*final(g)) == belief_edges(*old(g)).push((a, b, action)),
{
    g.add_edge(NodeIndex::new(a), NodeIndex::new(b), action);
}

/// Edge `e` joins two nodes, and the labels of its target are those the
/// action may lead to from the labels of its source.
pub open spec fn edge_fits(nodes: Seq<Seq<u8>>, e: (usize, usize, Action)) -> bool {
    &&& e.0 < nodes.len()
    &&& e.1 < nodes.len()
    &&& nodes[e.1 as int].to_set() == labels_after(nodes[e.0 as int], e.2)
}

/// A copy of the labels.
fn copy_labels(v: &Vec<u8>) -> (r: Vec<u8>)
    ensures
        r@ == v@,
{
    let mut r: Vec<u8> = Vec::new();
    let mut i: usize = 0;
    while i < v.len()
        invariant
            i <= v@.len(),
            r@ == v@.take(i as int),
        decreases v.len() - i,
    {
        r.push(v[i]);
        proof {
            assert(r@ =~= v@.take(i + 1));
        }
        i += 1;
    }
    proof {
        assert(r@ =~= v@);
    }
    r
}

/// The belief states reachable from `init`, each named by the labels of its
/// states, with an edge for each action: explored depth first, nodes
/// numbered as they are met, the actions of a node tried in the order of
/// `Action::enumerate`.
pub fn explore(init: Vec<Erratic>) -> (g: Beliefs)
    requires
        init@.no_duplicates(),
    ensures
        1 <= belief_nodes(g).len() <= 256,
        names(belief_nodes(g)[0], init@),
        forall|i: int| 0 <= i < belief_nodes(g).len() ==> label_seq(#[trigger] belief_nodes(g)[i]),
        forall|i: int, j: int| 0 <= i < j < belief_nodes(g).len() ==> belief_nodes(g)[i] != belief_nodes(g)[j],
        forall|e: int| 0 <= e < belief_edges(g).len() ==> edge_fits(belief_nodes(g), #[trigger] belief_edges(g)[e]),
        forall|i: int, a: Action| 0 <= i < belief_nodes(g).len() ==> #[trigger] has_edge(belief_edges(g), i, a),
        forall|j: int| 1 <= j < belief_nodes(g).len() ==> #[trigger] reached(belief_edges(g), j),
        belief_edges(g).len() == 3 * belief_nodes(g).len(),
{
    let b = explore_beliefs(init);
    let ghost ns = b.nodes@;
    let ghost es = b.edges@;
    let mut g = beliefs_new();
    let mut i: usize = 0;
    while i < b.nodes.len()
        invariant
            i <= b.nodes@.len(),
            b.nodes@.len() <= 256,
            belief_nodes(g).len() == i,
            forall|k: int| 0 <= k < i ==> #[trigger] belief_nodes(g)[k] == b.nodes@[k]@,
            belief_edges(g) == Seq::<(usize, usize, Action)>::empty(),
        decreases b.nodes.len() - i,
    {
        let labels = copy_labels(&b.nodes[i]);
        beliefs_add_node(&mut g, labels);
        i += 1;
    }
    let mut k: usize = 0;
    while k < b.edges.len()
        invariant
            k <= b.edges@.len(),
            b.edges@.len() == 3 * b.nodes@.len(),
            b.nodes@.len() <= 256,
            belief_nodes(g).len() == b.nodes@.len(),
            forall|j: int| 0 <= j < b.nodes@.len() ==> #[trigger] belief_nodes(g)[j] == b.nodes@[j]@,
            forall|e: int| 0 <= e < b.edges@.len() ==> edge_ok(b.nodes@, #[trigger] b.edges@[e]),
            belief_edges(g) == b.edges@.take(k as int),
        decreases b.edges.len() - k,
    {
        let (from, to, action) = b.edges[k];
        proof {
            assert(edge_ok(b.nodes@, b.edges@[k as int]));
        }
        beliefs_add_edge(&mut g, from, to, action);
        proof {
            assert(belief_edges(g) =~= b.edges@.take(k + 1));
        }
        k += 1;
    }
    proof {
        let bn = belief_nodes(g);
        let be = belief_edges(g);
        assert(be =~= b.edges@);
        assert forall|e: int| 0 <= e < be.len() implies edge_fits(bn, #[trigger] be[e]) by {
            assert(edge_ok(b.nodes@, b.edges@[e]));
        }
        assert forall|x: int, y: int| 0 <= x < y < bn.len() implies bn[x] != bn[y] by {
            assert(bn[x] == b.nodes@[x]@ && bn[y] == b.nodes@[y]@);
        }
        assert forall|x: int| 0 <= x < bn.len() implies label_seq(#[trigger] bn[x]) by {
            assert(bn[x] == b.nodes@[x]@);
        }
        assert(bn[0] == b.nodes@[0]@);
    }
    g
}

} // verus!
