use vstd::prelude::*;
use super::build;

verus! {

/// A propositional symbol is an index into a model.
pub type Symbol = usize;

/// A propositional sentence.
pub enum Expr {
    True,
    False,
    Var(Symbol),
    Not(Box<Expr>),
    And(Box<Expr>, Box<Expr>),
    Or(Box<Expr>, Box<Expr>),
    Imply(Box<Expr>, Box<Expr>),
    Iff(Box<Expr>, Box<Expr>),
}

/// Kleene conjunction of two possibly unknown truth values.
pub open spec fn and3(l: Option<bool>, r: Option<bool>) -> Option<bool> {
    match (l, r) {
        (Some(true), Some(true)) => Some(true),
        (Some(false), _) => Some(false),
        (_, Some(false)) => Some(false),
        _ => None,
    }
}

/// Kleene disjunction of two possibly unknown truth values.
pub open spec fn or3(l: Option<bool>, r: Option<bool>) -> Option<bool> {
    match (l, r) {
        (Some(true), _) => Some(true),
        (_, Some(true)) => Some(true),
        (Some(false), Some(false)) => Some(false),
        _ => None,
    }
}

/// Kleene implication.
pub open spec fn imply3(l: Option<bool>, r: Option<bool>) -> Option<bool> {
    match (l, r) {
        (Some(true), Some(false)) => Some(false),
        (Some(false), _) => Some(true),
        (_, Some(true)) => Some(true),
        _ => None,
    }
}

/// Biconditional: known only when both sides are known.
pub open spec fn iff3(l: Option<bool>, r: Option<bool>) -> Option<bool> {
    match (l, r) {
        (Some(a), Some(b)) => Some(a == b),
        _ => None,
    }
}

/// Negation of a possibly unknown truth value.
pub open spec fn not3(v: Option<bool>) -> Option<bool> {
    match v {
        Some(b) => Some(!b),
        None => None,
    }
}

impl Expr {
    /// The truth value of the sentence under a partial model, where the symbol
    /// `i` is assigned `model[i]` when `i < model.len()` and is unknown otherwise.
    pub open spec fn value(self, model: Seq<bool>) -> Option<bool>
        decreases self,
    {
        match self {
            Expr::True => Some(true),
            Expr::False => Some(false),
            Expr::Var(v) => if v < model.len() { Some(model[v as int]) } else { None },
            Expr::Not(e) => not3(e.value(model)),
            Expr::And(l, r) => and3(l.value(model), r.value(model)),
            Expr::Or(l, r) => or3(l.value(model), r.value(model)),
            Expr::Imply(l, r) => imply3(l.value(model), r.value(model)),
            Expr::Iff(l, r) => iff3(l.value(model), r.value(model)),
        }
    }

    /// One more than the largest symbol in the sentence (0 when it has none):
    /// a model at least this long assigns every symbol.
    pub open spec fn bound(self) -> nat
        decreases self,
    {
        match self {
            Expr::True | Expr::False => 0,
            Expr::Var(v) => (v + 1) as nat,
            Expr::Not(e) => e.bound(),
            Expr::And(l, r) | Expr::Or(l, r) | Expr::Imply(l, r) | Expr::Iff(l, r) =>
                if l.bound() >= r.bound() { l.bound() } else { r.bound() },
        }
    }

    /// True in every model that assigns all of its symbols.
    pub open spec fn is_valid(self) -> bool {
        forall|m: Seq<bool>| m.len() >= self.bound() ==> #[trigger] self.value(m) == Some(true)
    }

    /// Both sentences take the same truth value in every model that assigns
    /// all symbols of both.
    pub open spec fn equivalent_to(self, other: Expr) -> bool {
        forall|m: Seq<bool>|
            m.len() >= self.bound() && m.len() >= other.bound() ==> #[trigger] self.value(m)
                == other.value(m)
    }

    /// A model that assigns every symbol gives a known truth value.
    pub proof fn lemma_value_known(self, m: Seq<bool>)
        requires
            m.len() >= self.bound(),
        ensures
            self.value(m) is Some,
        decreases self,
    {
        match self {
            Expr::Not(e) => e.lemma_value_known(m),
            Expr::And(l, r) | Expr::Or(l, r) | Expr::Imply(l, r) | Expr::Iff(l, r) => {
                l.lemma_value_known(m);
                r.lemma_value_known(m);
            },
            _ => {},
        }
    }

    /// A known truth value stays the same when the model is extended.
    pub proof fn lemma_value_extends(self, m: Seq<bool>, ext: Seq<bool>)
        requires
            self.value(m) is Some,
        ensures
            self.value(m + ext) == self.value(m),
        decreases self,
    {
        match self {
            Expr::Var(v) => {
                assert((m + ext)[v as int] == m[v as int]);
            },
            Expr::Not(e) => e.lemma_value_extends(m, ext),
            Expr::And(l, r) | Expr::Or(l, r) | Expr::Imply(l, r) => {
                if l.value(m) is Some {
                    l.lemma_value_extends(m, ext);
                }
                if r.value(m) is Some {
                    r.lemma_value_extends(m, ext);
                }
            },
            Expr::Iff(l, r) => {
                l.lemma_value_extends(m, ext);
                r.lemma_value_extends(m, ext);
            },
            _ => {},
        }
    }

    /// Only the first `bound()` entries of a model matter.
    pub proof fn lemma_value_prefix(self, m: Seq<bool>, n: int)
        requires
            self.bound() <= n <= m.len(),
        ensures
            self.value(m) == self.value(m.subrange(0, n)),
        decreases self,
    {
        match self {
            Expr::Not(e) => e.lemma_value_prefix(m, n),
            Expr::And(l, r) | Expr::Or(l, r) | Expr::Imply(l, r) | Expr::Iff(l, r) => {
                l.lemma_value_prefix(m, n);
                r.lemma_value_prefix(m, n);
            },
            _ => {},
        }
    }

    /// Evaluates the sentence under a partial model.
    pub fn partial_truth(&self, model: &[bool]) -> (r: Option<bool>)
        ensures
            r == self.value(model@),
        decreases self,
    {
        match self {
            Expr::True => Some(true),
            Expr::False => Some(false),
            Expr::Var(v) => {
                if *v < model.len() {
                    Some(model[*v])
                } else {
                    None
                }
            },
            Expr::Not(e) => match e.partial_truth(model) {
                Some(t) => Some(!t),
                None => None,
            },
            Expr::And(lhs, rhs) => match (lhs.partial_truth(model), rhs.partial_truth(model)) {
                (Some(true), Some(true)) => Some(true),
                (Some(false), _) => Some(false),
                (_, Some(false)) => Some(false),
                _ => None,
            },
            Expr::Or(lhs, rhs) => match (lhs.partial_truth(model), rhs.partial_truth(model)) {
                (Some(true), _) => Some(true),
                (_, Some(true)) => Some(true),
                (Some(false), Some(false)) => Some(false),
                _ => None,
            },
            Expr::Imply(lhs, rhs) => match (lhs.partial_truth(model), rhs.partial_truth(model)) {
                (Some(true), Some(false)) => Some(false),
                (Some(false), _) => Some(true),
                (_, Some(true)) => Some(true),
                _ => None,
            },
            Expr::Iff(lhs, rhs) => match (lhs.partial_truth(model), rhs.partial_truth(model)) {
                (Some(l), Some(r)) => Some(l == r),
                _ => None,
            },
        }
    }
}

impl Expr {
    /// Every extension of `m` that assigns all symbols makes the sentence true.
    pub open spec fn valid_from(self, m: Seq<bool>) -> bool {
        forall|ext: Seq<bool>|
            (m + ext).len() >= self.bound() ==> #[trigger] self.value(m + ext) == Some(true)
    }

    proof fn lemma_valid_from_empty(self)
        ensures
            self.valid_from(Seq::empty()) == self.is_valid(),
    {
        if self.is_valid() {
            assert forall|ext: Seq<bool>|
                (Seq::<bool>::empty() + ext).len() >= self.bound() implies #[trigger] self.value(
                Seq::<bool>::empty() + ext) == Some(true) by {
                assert(Seq::<bool>::empty() + ext =~= ext);
            }
        }
        if self.valid_from(Seq::empty()) {
            assert forall|m: Seq<bool>| m.len() >= self.bound() implies #[trigger] self.value(m)
                == Some(true) by {
                assert(Seq::<bool>::empty() + m =~= m);
                assert(self.value(Seq::<bool>::empty() + m) == Some(true));
            }
        }
    }

    proof fn lemma_valid_from_known(self, m: Seq<bool>, t: bool)
        requires
            self.value(m) == Some(t),
        ensures
            self.valid_from(m) == t,
    {
        assert forall|ext: Seq<bool>| #[trigger] self.value(m + ext) == Some(t) by {
            self.lemma_value_extends(m, ext);
        }
        if !t {
            let ext = Seq::new(self.bound(), |i: int| false);
            assert(self.value(m + ext) == Some(false));
        }
    }

    proof fn lemma_valid_from_split(self, m: Seq<bool>)
        requires
            m.len() < self.bound(),
        ensures
            self.valid_from(m) == (self.valid_from(m.push(true)) && self.valid_from(
                m.push(false),
            )),
    {
        if self.valid_from(m) {
            assert forall|b: bool, ext: Seq<bool>|
                (m.push(b) + ext).len() >= self.bound() implies #[trigger] self.value(
                m.push(b) + ext) == Some(true) by {
                assert(m.push(b) + ext =~= m + (seq![b] + ext));
                assert(self.value(m + (seq![b] + ext)) == Some(true));
            }
            assert(self.valid_from(m.push(true)));
            assert(self.valid_from(m.push(false)));
        }
        if self.valid_from(m.push(true)) && self.valid_from(m.push(false)) {
            assert forall|ext: Seq<bool>| (m + ext).len() >= self.bound() implies #[trigger] self.value(
                m + ext) == Some(true) by {
                assert(ext.len() > 0);
                assert(m + ext =~= m.push(ext[0]) + ext.drop_first());
                if ext[0] {
                    assert(self.value(m.push(true) + ext.drop_first()) == Some(true));
                } else {
                    assert(self.value(m.push(false) + ext.drop_first()) == Some(true));
                }
            }
        }
    }

    /// Whether the sentence is true in every model: the model is extended one
    /// symbol at a time until the sentence's truth value is known.
    pub fn is_taotology(&self) -> (r: bool)
        ensures
            r == self.is_valid(),
    {
        let mut model: Vec<bool> = Vec::new();
        let r = self.check_all(&mut model);
        proof {
            assert(model@ =~= Seq::<bool>::empty());
            self.lemma_valid_from_empty();
        }
        r
    }

    /// Whether every extension of `model` that assigns all symbols makes the
    /// sentence true; `model` is left as it was.
    fn check_all(&self, model: &mut Vec<bool>) -> (r: bool)
        ensures
            final(model)@ == old(model)@,
            r == self.valid_from(old(model)@),
        decreases self.bound() - old(model)@.len(),
    {
        match self.partial_truth(model.as_slice()) {
            Some(t) => {
                proof {
                    self.lemma_valid_from_known(model@, t);
                }
                t
            },
            None => {
                let ghost m = model@;
                proof {
                    if m.len() >= self.bound() {
                        self.lemma_value_known(m);
                    }
                    self.lemma_valid_from_split(m);
                }
                model.push(true);
                let true_check = self.check_all(model);
                model.pop();
                assert(model@ =~= m);
                model.push(false);
                let false_check = self.check_all(model);
                model.pop();
                assert(model@ =~= m);
                true_check && false_check
            },
        }
    }
}

impl Expr {
    /// A size under which every rewriting step of the negation normal form
    /// transformation is smaller than the sentence it rewrites.
    pub open spec fn size(self) -> nat
        decreases self,
    {
        match self {
            Expr::True | Expr::False | Expr::Var(_) => 1,
            Expr::Not(e) => e.size() + 1,
            Expr::And(l, r) | Expr::Or(l, r) => l.size() + r.size() + 1,
            Expr::Imply(l, r) => l.size() + r.size() + 3,
            Expr::Iff(l, r) => 2 * (l.size() + r.size() + 3) + 2,
        }
    }

    /// Negation normal form: only `And`, `Or`, constants, symbols and negated
    /// symbols.
    pub open spec fn is_nnf(self) -> bool
        decreases self,
    {
        match self {
            Expr::True | Expr::False | Expr::Var(_) => true,
            Expr::Not(e) => match *e {
                Expr::Var(_) => true,
                _ => false,
            },
            Expr::And(l, r) | Expr::Or(l, r) => l.is_nnf() && r.is_nnf(),
            _ => false,
        }
    }

    /// A copy of the sentence.
    pub fn duplicate(&self) -> (r: Expr)
        ensures
            r == *self,
        decreases self,
    {
        match self {
            Expr::True => Expr::True,
            Expr::False => Expr::False,
            Expr::Var(v) => Expr::Var(*v),
            Expr::Not(e) => Expr::Not(Box::new(e.duplicate())),
            Expr::And(l, r) => Expr::And(Box::new(l.duplicate()), Box::new(r.duplicate())),
            Expr::Or(l, r) => Expr::Or(Box::new(l.duplicate()), Box::new(r.duplicate())),
            Expr::Imply(l, r) => Expr::Imply(Box::new(l.duplicate()), Box::new(r.duplicate())),
            Expr::Iff(l, r) => Expr::Iff(Box::new(l.duplicate()), Box::new(r.duplicate())),
        }
    }

    /// Whether the two sentences agree in every model, decided by checking
    /// that `self <=> other` is a tautology.
    pub fn equivalent(&self, other: &Self) -> (r: bool)
        ensures
            r == self.equivalent_to(*other),
    {
        let e = build::iff(self.duplicate(), other.duplicate());
        let r = e.is_taotology();
        proof {
            if r {
                assert forall|m: Seq<bool>|
                    m.len() >= self.bound() && m.len() >= other.bound() implies #[trigger] self.value(
                    m) == other.value(m) by {
                    assert(e.value(m) == Some(true));
                    self.lemma_value_known(m);
                    other.lemma_value_known(m);
                }
            }
            if self.equivalent_to(*other) {
                assert forall|m: Seq<bool>| m.len() >= e.bound() implies #[trigger] e.value(m)
                    == Some(true) by {
                    assert(self.value(m) == other.value(m));
                    self.lemma_value_known(m);
                }
            }
        }
        r
    }

    /// The negation normal form: implications and biconditionals are
    /// expanded and negations are pushed down to the symbols. The result
    /// takes the same truth value as the sentence in every partial model.
    #[verifier::rlimit(40)]
    pub fn to_nnf_expr(&self) -> (r: Expr)
        ensures
            r.is_nnf(),
            forall|m: Seq<bool>| #[trigger] r.value(m) == self.value(m),
            r.bound() <= self.bound(),
        decreases self.size(),
    {
        match self {
            Expr::True => Expr::True,
            Expr::False => Expr::False,
            Expr::Var(v) => Expr::Var(*v),
            Expr::Not(e) => {
                let inner: &Expr = e;
                assert(self.size() == inner.size() + 1);
                assert(self.bound() == inner.bound());
                assert(forall|m: Seq<bool>| #[trigger] self.value(m) == not3(inner.value(m)));
                match inner {
                    Expr::True => Expr::False,
                    Expr::False => Expr::True,
                    Expr::Var(v) => {
                        let res = build::not(build::var(*v));
                        assert(res.bound() == inner.bound());
                        assert(res.bound() <= self.bound());
                        res
                    },
                    Expr::Not(inn) => {
                        assert(inner.size() == inn.size() + 1);
                        assert(inner.bound() == inn.bound());
                        let r = inn.to_nnf_expr();
                        assert forall|m: Seq<bool>| #[trigger] r.value(m) == self.value(m) by {
                            assert(inner.value(m) == not3(inn.value(m)));
                        }
                        r
                    },
                    Expr::And(lhs, rhs) => {
                        let nl = build::not(lhs.duplicate());
                        let nr = build::not(rhs.duplicate());
                        assert(nl.size() == lhs.size() + 1);
                        assert(nr.size() == rhs.size() + 1);
                        assert(nl.bound() == lhs.bound());
                        assert(nr.bound() == rhs.bound());
                        let l = nl.to_nnf_expr();
                        let r = nr.to_nnf_expr();
                        let res = build::or(l, r);
                        assert forall|m: Seq<bool>| #[trigger] res.value(m) == self.value(m) by {
                            assert(l.value(m) == not3(lhs.value(m)));
                            assert(r.value(m) == not3(rhs.value(m)));
                        }
                        assert(res.bound() <= self.bound());
                        res
                    },
                    Expr::Or(lhs, rhs) => {
                        let nl = build::not(lhs.duplicate());
                        let nr = build::not(rhs.duplicate());
                        assert(nl.size() == lhs.size() + 1);
                        assert(nr.size() == rhs.size() + 1);
                        assert(nl.bound() == lhs.bound());
                        assert(nr.bound() == rhs.bound());
                        let l = nl.to_nnf_expr();
                        let r = nr.to_nnf_expr();
                        let res = build::and(l, r);
                        assert forall|m: Seq<bool>| #[trigger] res.value(m) == self.value(m) by {
                            assert(l.value(m) == not3(lhs.value(m)));
                            assert(r.value(m) == not3(rhs.value(m)));
                        }
                        assert(res.bound() <= self.bound());
                        res
                    },
                    Expr::Imply(lhs, rhs) => {
                        let nl = build::not(lhs.duplicate());
                        let o = build::or(nl, rhs.duplicate());
                        let rewritten = build::not(o);
                        assert(nl.size() == lhs.size() + 1);
                        assert(o.size() == lhs.size() + rhs.size() + 2);
                        assert(rewritten.size() == lhs.size() + rhs.size() + 3);
                        assert(nl.bound() == lhs.bound());
                        assert(rewritten.bound() == o.bound());
                        let res = rewritten.to_nnf_expr();
                        assert forall|m: Seq<bool>| #[trigger] res.value(m) == self.value(m) by {
                            assert(res.value(m) == rewritten.value(m));
                            assert(nl.value(m) == not3(lhs.value(m)));
                            assert(o.value(m) == or3(nl.value(m), rhs.value(m)));
                        }
                        assert(res.bound() <= self.bound());
                        res
                    },
                    Expr::Iff(lhs, rhs) => {
                        let i1 = build::imply(lhs.duplicate(), rhs.duplicate());
                        let i2 = build::imply(rhs.duplicate(), lhs.duplicate());
                        let a = build::and(i1, i2);
                        let rewritten = build::not(a);
                        assert(i1.size() == lhs.size() + rhs.size() + 3);
                        assert(i2.size() == lhs.size() + rhs.size() + 3);
                        assert(a.size() == 2 * (lhs.size() + rhs.size() + 3) + 1);
                        assert(rewritten.bound() == a.bound());
                        assert(i1.bound() == inner.bound());
                        assert(i2.bound() == inner.bound());
                        let res = rewritten.to_nnf_expr();
                        assert forall|m: Seq<bool>| #[trigger] res.value(m) == self.value(m) by {
                            assert(res.value(m) == rewritten.value(m));
                            assert(i1.value(m) == imply3(lhs.value(m), rhs.value(m)));
                            assert(i2.value(m) == imply3(rhs.value(m), lhs.value(m)));
                            assert(a.value(m) == and3(i1.value(m), i2.value(m)));
                        }
                        assert(res.bound() <= self.bound());
                        res
                    },
                }
            },
            Expr::And(lhs, rhs) => {
                let l = lhs.to_nnf_expr();
                let r = rhs.to_nnf_expr();
                let res = build::and(l, r);
                assert forall|m: Seq<bool>| #[trigger] res.value(m) == self.value(m) by {
                    assert(l.value(m) == lhs.value(m));
                    assert(r.value(m) == rhs.value(m));
                }
                assert(res.bound() <= self.bound());
                res
            },
            Expr::Or(lhs, rhs) => {
                let l = lhs.to_nnf_expr();
                let r = rhs.to_nnf_expr();
                let res = build::or(l, r);
                assert forall|m: Seq<bool>| #[trigger] res.value(m) == self.value(m) by {
                    assert(l.value(m) == lhs.value(m));
                    assert(r.value(m) == rhs.value(m));
                }
                assert(res.bound() <= self.bound());
                res
            },
            Expr::Imply(lhs, rhs) => {
                let nl = build::not(lhs.duplicate());
                let rewritten = build::or(nl, rhs.duplicate());
                assert(nl.size() == lhs.size() + 1);
                assert(rewritten.size() == lhs.size() + rhs.size() + 2);
                assert(nl.bound() == lhs.bound());
                let res = rewritten.to_nnf_expr();
                assert forall|m: Seq<bool>| #[trigger] res.value(m) == self.value(m) by {
                    assert(res.value(m) == rewritten.value(m));
                    assert(nl.value(m) == not3(lhs.value(m)));
                }
                assert(res.bound() <= self.bound());
                res
            },
            Expr::Iff(lhs, rhs) => {
                let i1 = build::imply(lhs.duplicate(), rhs.duplicate());
                let i2 = build::imply(rhs.duplicate(), lhs.duplicate());
                let rewritten = build::and(i1, i2);
                assert(i1.size() == lhs.size() + rhs.size() + 3);
                assert(i2.size() == lhs.size() + rhs.size() + 3);
                assert(rewritten.size() == 2 * (lhs.size() + rhs.size() + 3) + 1);
                assert(i1.bound() == self.bound());
                assert(i2.bound() == self.bound());
                let res = rewritten.to_nnf_expr();
                assert forall|m: Seq<bool>| #[trigger] res.value(m) == self.value(m) by {
                    assert(res.value(m) == rewritten.value(m));
                    assert(i1.value(m) == imply3(lhs.value(m), rhs.value(m)));
                    assert(i2.value(m) == imply3(rhs.value(m), lhs.value(m)));
                }
                assert(res.bound() <= self.bound());
                res
            },
        }
    }
}

impl Expr {
    /// A disjunction of constants, symbols and negated symbols.
    pub open spec fn is_clause_tree(self) -> bool
        decreases self,
    {
        match self {
            Expr::True | Expr::False | Expr::Var(_) => true,
            Expr::Not(e) => match *e {
                Expr::Var(_) => true,
                _ => false,
            },
            Expr::Or(l, r) => l.is_clause_tree() && r.is_clause_tree(),
            _ => false,
        }
    }

    /// Conjunctive normal form: a conjunction of clause trees.
    pub open spec fn is_cnf_tree(self) -> bool
        decreases self,
    {
        match self {
            Expr::And(l, r) => l.is_cnf_tree() && r.is_cnf_tree(),
            _ => self.is_clause_tree(),
        }
    }

    /// Distributes the disjunction of two conjunctive normal forms over
    /// their conjunctions.
    fn distribute_pair(a: Expr, b: Expr) -> (r: Expr)
        requires
            a.is_cnf_tree(),
            b.is_cnf_tree(),
        ensures
            r.is_cnf_tree(),
            forall|m: Seq<bool>| #[trigger] r.value(m) == or3(a.value(m), b.value(m)),
            r.bound() <= if a.bound() >= b.bound() { a.bound() } else { b.bound() },
        decreases a.size() + b.size(),
    {
        match a {
            Expr::And(a1, a2) => {
                let l = Expr::distribute_pair(*a1, b.duplicate());
                let r = Expr::distribute_pair(*a2, b);
                let res = build::and(l, r);
                proof {
                    assert forall|m: Seq<bool>| #[trigger] res.value(m) == or3(a.value(m), b.value(m)) by {
                        assert(l.value(m) == or3(a1.value(m), b.value(m)));
                        assert(r.value(m) == or3(a2.value(m), b.value(m)));
                    }
                }
                res
            },
            _ => match b {
                Expr::And(b1, b2) => {
                    let l = Expr::distribute_pair(a.duplicate(), *b1);
                    let r = Expr::distribute_pair(a, *b2);
                    let res = build::and(l, r);
                    proof {
                        assert forall|m: Seq<bool>| #[trigger] res.value(m) == or3(a.value(m), b.value(m)) by {
                            assert(l.value(m) == or3(a.value(m), b1.value(m)));
                            assert(r.value(m) == or3(a.value(m), b2.value(m)));
                        }
                    }
                    res
                },
                _ => build::or(a, b),
            },
        }
    }

    /// Distributes disjunctions over conjunctions in a negation normal form,
    /// giving a conjunctive normal form with the same truth value.
    pub fn distribute_ors(&self) -> (r: Expr)
        requires
            self.is_nnf(),
        ensures
            r.is_cnf_tree(),
            forall|m: Seq<bool>| #[trigger] r.value(m) == self.value(m),
            r.bound() <= self.bound(),
        decreases self,
    {
        match self {
            Expr::And(lhs, rhs) => {
                let l = lhs.distribute_ors();
                let r = rhs.distribute_ors();
                let res = build::and(l, r);
                proof {
                    assert forall|m: Seq<bool>| #[trigger] res.value(m) == self.value(m) by {
                        assert(l.value(m) == lhs.value(m));
                        assert(r.value(m) == rhs.value(m));
                    }
                }
                res
            },
            Expr::Or(lhs, rhs) => {
                let l = lhs.distribute_ors();
                let r = rhs.distribute_ors();
                let res = Expr::distribute_pair(l, r);
                proof {
                    assert forall|m: Seq<bool>| #[trigger] res.value(m) == self.value(m) by {
                        assert(l.value(m) == lhs.value(m));
                        assert(r.value(m) == rhs.value(m));
                    }
                }
                res
            },
            _ => self.duplicate(),
        }
    }

    /// The conjunctive normal form: negation normal form, then distribution.
    pub fn to_cnf_expr(&self) -> (r: Expr)
        ensures
            r.is_cnf_tree(),
            forall|m: Seq<bool>| #[trigger] r.value(m) == self.value(m),
            r.bound() <= self.bound(),
    {
        let nnf = self.to_nnf_expr();
        let r = nnf.distribute_ors();
        assert forall|m: Seq<bool>| #[trigger] r.value(m) == self.value(m) by {
            assert(nnf.value(m) == self.value(m));
        }
        r
    }
}

} // verus!
