use vstd::prelude::*;
use super::build;
use super::expr::{Expr, Symbol, not3, and3, or3};
use super::model::Model;

verus! {

/// A symbol or its negation.
#[derive(Clone, Copy, PartialEq, Eq, Structural, PartialOrd, Ord, Hash, Debug)]
pub enum Literal {
    Neg(Symbol),
    Pos(Symbol),
}

/// The value a partial model gives a symbol: `None` when it is unassigned or
/// beyond the model's end.
pub open spec fn model_get(m: Seq<Option<bool>>, s: Symbol) -> Option<bool> {
    if s < m.len() {
        m[s as int]
    } else {
        None
    }
}

/// A model in which the first `m.len()` symbols are assigned as in `m`.
pub open spec fn lift(m: Seq<bool>) -> Seq<Option<bool>> {
    Seq::new(m.len(), |i: int| Some(m[i]))
}

impl Literal {
    pub open spec fn sym(self) -> Symbol {
        match self {
            Literal::Neg(s) => s,
            Literal::Pos(s) => s,
        }
    }

    pub open spec fn positive(self) -> bool {
        self is Pos
    }

    /// The position of the literal in the order `Neg(0) < Neg(1) < .. < Pos(0) < Pos(1) < ..`.
    pub open spec fn key(self) -> int {
        match self {
            Literal::Neg(s) => s as int,
            Literal::Pos(s) => s as int + usize::MAX + 1,
        }
    }

    pub open spec fn value(self, m: Seq<Option<bool>>) -> Option<bool> {
        match self {
            Literal::Pos(s) => model_get(m, s),
            Literal::Neg(s) => not3(model_get(m, s)),
        }
    }

    /// The symbol of the literal.
    pub fn symbol(&self) -> (r: Symbol)
        ensures
            r == self.sym(),
    {
        match self {
            Literal::Neg(s) => *s,
            Literal::Pos(s) => *s,
        }
    }

    /// The literal as a sentence: `s` or `~s`.
    pub fn to_expr(&self) -> (r: Expr)
        ensures
            forall|m: Seq<bool>| #[trigger] r.value(m) == self.value(lift(m)),
            r.bound() == self.sym() + 1,
    {
        match self {
            Literal::Neg(s) => {
                let v = build::var(*s);
                let r = build::not(v);
                assert(v.bound() == *s + 1);
                assert(r.bound() == v.bound());
                assert forall|m: Seq<bool>| #[trigger] r.value(m) == self.value(lift(m)) by {
                    assert(r.value(m) == not3(v.value(m)));
                    assert(v.value(m) == model_get(lift(m), *s));
                }
                r
            },
            Literal::Pos(s) => {
                let r = build::var(*s);
                assert(r.bound() == *s + 1);
                assert forall|m: Seq<bool>| #[trigger] r.value(m) == self.value(lift(m)) by {
                    assert(r.value(m) == model_get(lift(m), *s));
                }
                r
            },
        }
    }

    /// Whether `self` comes before `other` in the order of `key`.
    pub fn less_than(&self, other: &Literal) -> (r: bool)
        ensures
            r == (self.key() < other.key()),
    {
        match (self, other) {
            (Literal::Neg(a), Literal::Neg(b)) => *a < *b,
            (Literal::Neg(_), Literal::Pos(_)) => true,
            (Literal::Pos(_), Literal::Neg(_)) => false,
            (Literal::Pos(a), Literal::Pos(b)) => *a < *b,
        }
    }

    pub proof fn lemma_key_injective(self, other: Literal)
        ensures
            self.key() == other.key() ==> self == other,
    {
    }
}

/// Kleene disjunction of the literals: true when one is true, false when all
/// are false, unknown otherwise.
pub open spec fn clause_value(lits: Seq<Literal>, m: Seq<Option<bool>>) -> Option<bool> {
    if exists|i: int| 0 <= i < lits.len() && #[trigger] lits[i].value(m) == Some(true) {
        Some(true)
    } else if forall|i: int| 0 <= i < lits.len() ==> #[trigger] lits[i].value(m) == Some(false) {
        Some(false)
    } else {
        None
    }
}

/// Kleene conjunction of the clauses: false when one is false, true when all
/// are true, unknown otherwise.
pub open spec fn cnf_value(clauses: Seq<Seq<Literal>>, m: Seq<Option<bool>>) -> Option<bool> {
    if exists|i: int| 0 <= i < clauses.len() && #[trigger] clause_value(clauses[i], m) == Some(false) {
        Some(false)
    } else if forall|i: int| 0 <= i < clauses.len() ==> #[trigger] clause_value(clauses[i], m) == Some(true) {
        Some(true)
    } else {
        None
    }
}

/// Strictly increasing in the order of `Literal::key`, hence free of repeats.
pub open spec fn strictly_sorted(lits: Seq<Literal>) -> bool {
    forall|i: int, j: int| 0 <= i < j < lits.len() ==> #[trigger] lits[i].key() < #[trigger] lits[j].key()
}

/// The two sequences hold the same elements.
pub open spec fn same_elements<T>(a: Seq<T>, b: Seq<T>) -> bool {
    forall|x: T| a.contains(x) <==> b.contains(x)
}

/// The clause value depends only on which literals occur.
pub proof fn lemma_clause_value_elements(a: Seq<Literal>, b: Seq<Literal>, m: Seq<Option<bool>>)
    requires
        same_elements(a, b),
    ensures
        clause_value(a, m) == clause_value(b, m),
{
    if exists|i: int| 0 <= i < a.len() && #[trigger] a[i].value(m) == Some(true) {
        let i = choose|i: int| 0 <= i < a.len() && #[trigger] a[i].value(m) == Some(true);
        assert(a.contains(a[i]));
        let j = choose|j: int| 0 <= j < b.len() && b[j] == a[i];
        assert(b[j].value(m) == Some(true));
    }
    if exists|i: int| 0 <= i < b.len() && #[trigger] b[i].value(m) == Some(true) {
        let i = choose|i: int| 0 <= i < b.len() && #[trigger] b[i].value(m) == Some(true);
        assert(b.contains(b[i]));
        let j = choose|j: int| 0 <= j < a.len() && a[j] == b[i];
        assert(a[j].value(m) == Some(true));
    }
    if forall|i: int| 0 <= i < a.len() ==> #[trigger] a[i].value(m) == Some(false) {
        assert forall|i: int| 0 <= i < b.len() implies #[trigger] b[i].value(m) == Some(false) by {
            assert(b.contains(b[i]));
            let j = choose|j: int| 0 <= j < a.len() && a[j] == b[i];
            assert(a[j].value(m) == Some(false));
        }
    }
    if forall|i: int| 0 <= i < b.len() ==> #[trigger] b[i].value(m) == Some(false) {
        assert forall|i: int| 0 <= i < a.len() implies #[trigger] a[i].value(m) == Some(false) by {
            assert(a.contains(a[i]));
            let j = choose|j: int| 0 <= j < b.len() && b[j] == a[i];
            assert(b[j].value(m) == Some(false));
        }
    }
}

/// A clause of one literal has that literal's value.
pub proof fn lemma_clause_value_single(one: Seq<Literal>, m: Seq<Option<bool>>)
    requires
        one.len() == 1,
    ensures
        clause_value(one, m) == one[0].value(m),
{
    let x = one[0];
    assert(forall|i: int| 0 <= i < one.len() ==> #[trigger] one[i] == x);
    match x.value(m) {
        Some(true) => {
            assert(one[0].value(m) == Some(true));
            assert(clause_value(one, m) == Some(true));
        },
        Some(false) => {
            assert(!exists|i: int| 0 <= i < one.len() && #[trigger] one[i].value(m) == Some(true));
            assert(clause_value(one, m) == Some(false));
        },
        None => {
            assert(!(one[0].value(m) == Some(false)));
            assert(!exists|i: int| 0 <= i < one.len() && #[trigger] one[i].value(m) == Some(true));
            assert(clause_value(one, m) == None::<bool>);
        },
    }
}

/// The value of a concatenation of clauses is the Kleene disjunction.
pub proof fn lemma_clause_value_concat(a: Seq<Literal>, b: Seq<Literal>, m: Seq<Option<bool>>)
    ensures
        clause_value(a + b, m) == or3(clause_value(a, m), clause_value(b, m)),
{
    let ab = a + b;
    if exists|i: int| 0 <= i < a.len() && #[trigger] a[i].value(m) == Some(true) {
        let i = choose|i: int| 0 <= i < a.len() && #[trigger] a[i].value(m) == Some(true);
        assert(ab[i] == a[i]);
    }
    if exists|i: int| 0 <= i < b.len() && #[trigger] b[i].value(m) == Some(true) {
        let i = choose|i: int| 0 <= i < b.len() && #[trigger] b[i].value(m) == Some(true);
        assert(ab[a.len() + i] == b[i]);
    }
    if exists|i: int| 0 <= i < ab.len() && #[trigger] ab[i].value(m) == Some(true) {
        let i = choose|i: int| 0 <= i < ab.len() && #[trigger] ab[i].value(m) == Some(true);
        if i < a.len() {
            assert(a[i] == ab[i]);
        } else {
            assert(b[i - a.len()] == ab[i]);
        }
    }
    if clause_value(a, m) == Some(false) && clause_value(b, m) == Some(false) {
        assert forall|i: int| 0 <= i < ab.len() implies #[trigger] ab[i].value(m) == Some(false) by {
            if i < a.len() {
                assert(a[i] == ab[i]);
            } else {
                assert(b[i - a.len()] == ab[i]);
            }
        }
    }
    if forall|i: int| 0 <= i < ab.len() ==> #[trigger] ab[i].value(m) == Some(false) {
        assert forall|i: int| 0 <= i < a.len() implies #[trigger] a[i].value(m) == Some(false) by {
            assert(a[i] == ab[i]);
        }
        assert forall|i: int| 0 <= i < b.len() implies #[trigger] b[i].value(m) == Some(false) by {
            assert(b[i] == ab[a.len() + i]);
        }
    }
}

/// The value of a concatenation of clause lists is the Kleene conjunction.
pub proof fn lemma_cnf_value_concat(a: Seq<Seq<Literal>>, b: Seq<Seq<Literal>>, m: Seq<Option<bool>>)
    ensures
        cnf_value(a + b, m) == and3(cnf_value(a, m), cnf_value(b, m)),
{
    let ab = a + b;
    if exists|i: int| 0 <= i < a.len() && #[trigger] clause_value(a[i], m) == Some(false) {
        let i = choose|i: int| 0 <= i < a.len() && #[trigger] clause_value(a[i], m) == Some(false);
        assert(ab[i] == a[i]);
    }
    if exists|i: int| 0 <= i < b.len() && #[trigger] clause_value(b[i], m) == Some(false) {
        let i = choose|i: int| 0 <= i < b.len() && #[trigger] clause_value(b[i], m) == Some(false);
        assert(ab[a.len() + i] == b[i]);
    }
    if exists|i: int| 0 <= i < ab.len() && #[trigger] clause_value(ab[i], m) == Some(false) {
        let i = choose|i: int| 0 <= i < ab.len() && #[trigger] clause_value(ab[i], m) == Some(false);
        if i < a.len() {
            assert(a[i] == ab[i]);
        } else {
            assert(b[i - a.len()] == ab[i]);
        }
    }
    if cnf_value(a, m) == Some(true) && cnf_value(b, m) == Some(true) {
        assert forall|i: int| 0 <= i < ab.len() implies #[trigger] clause_value(ab[i], m) == Some(true) by {
            if i < a.len() {
                assert(a[i] == ab[i]);
            } else {
                assert(b[i - a.len()] == ab[i]);
            }
        }
    }
    if forall|i: int| 0 <= i < ab.len() ==> #[trigger] clause_value(ab[i], m) == Some(true) {
        assert forall|i: int| 0 <= i < a.len() implies #[trigger] clause_value(a[i], m) == Some(true) by {
            assert(a[i] == ab[i]);
        }
        assert forall|i: int| 0 <= i < b.len() implies #[trigger] clause_value(b[i], m) == Some(true) by {
            assert(b[i] == ab[a.len() + i]);
        }
    }
}

/// A strictly sorted sequence with the elements of `[a]` is `[a]`.
proof fn lemma_sorted_singleton(r: Seq<Literal>, a: Literal)
    requires
        strictly_sorted(r),
        same_elements(r, seq![a]),
    ensures
        r == seq![a],
{
    let single = seq![a];
    assert(single[0] == a);
    assert(single.contains(a));
    assert(r.contains(a));
    assert forall|k: int| 0 <= k < r.len() implies r[k] == a by {
        assert(r.contains(r[k])) by {
            assert(r[k] == r[k]);
        }
        assert(single.contains(r[k]));
    }
    if r.len() > 1 {
        assert(r[0] == a && r[1] == a);
        assert(r[0].key() < r[1].key());
    }
    assert(r =~= single);
}

/// A sequence with no elements in common with the empty one is empty.
proof fn lemma_empty_elements(r: Seq<Literal>)
    requires
        same_elements(r, Seq::<Literal>::empty()),
    ensures
        r == Seq::<Literal>::empty(),
{
    if r.len() > 0 {
        assert(r.contains(r[0])) by {
            assert(r[0] == r[0]);
        }
    }
    assert(r =~= Seq::<Literal>::empty());
}

/// A disjunction of literals, kept strictly sorted.
pub struct CNFClause {
    literals: Vec<Literal>,
}

impl View for CNFClause {
    type V = Seq<Literal>;

    closed spec fn view(&self) -> Seq<Literal> {
        self.literals@
    }
}

/// Inserts `lit` into the strictly sorted `lits` unless it is already there.
fn insert_literal(lits: &mut Vec<Literal>, lit: Literal)
    requires
        strictly_sorted(old(lits)@),
    ensures
        strictly_sorted(final(lits)@),
        forall|x: Literal| final(lits)@.contains(x) <==> (old(lits)@.contains(x) || x == lit),
{
    let mut i: usize = 0;
    while i < lits.len() && lits[i].less_than(&lit)
        invariant
            i <= lits.len(),
            strictly_sorted(lits@),
            lits@ == old(lits)@,
            forall|j: int| 0 <= j < i ==> #[trigger] lits@[j].key() < lit.key(),
        decreases lits.len() - i,
    {
        i += 1;
    }
    if i < lits.len() && !lit.less_than(&lits[i]) {
        proof {
            lit.lemma_key_injective(lits@[i as int]);
            assert(lits@[i as int] == lit);
            assert(lits@.contains(lit));
        }
        return;
    }
    let ghost before = lits@;
    lits.insert(i, lit);
    proof {
        assert forall|a: int, b: int| 0 <= a < b < lits@.len() implies #[trigger] lits@[a].key() < #[trigger] lits@[b].key() by {
            if b < i {
                assert(lits@[a] == before[a] && lits@[b] == before[b]);
            } else if b == i {
                assert(lits@[a] == before[a]);
            } else if a == i {
                assert(lits@[b] == before[b - 1]);
                assert(before[i as int].key() <= before[b - 1].key());
            } else if a < i {
                assert(lits@[a] == before[a] && lits@[b] == before[b - 1]);
            } else {
                assert(lits@[a] == before[a - 1] && lits@[b] == before[b - 1]);
            }
        }
        assert forall|x: Literal| lits@.contains(x) <==> (before.contains(x) || x == lit) by {
            if lits@.contains(x) {
                let j = choose|j: int| 0 <= j < lits@.len() && lits@[j] == x;
                if j < i {
                    assert(before[j] == x);
                } else if j > i {
                    assert(before[j - 1] == x);
                }
            }
            if before.contains(x) {
                let j = choose|j: int| 0 <= j < before.len() && before[j] == x;
                if j < i {
                    assert(lits@[j] == x);
                } else {
                    assert(lits@[j + 1] == x);
                }
            }
            if x == lit {
                assert(lits@[i as int] == x);
            }
        }
        assert(before == old(lits)@);
        assert(forall|x: Literal| lits@.contains(x) <==> (old(lits)@.contains(x) || x == lit));
    }
}

/// Sorts the literals and removes repeats.
fn sort_literals(literals: &Vec<Literal>) -> (r: Vec<Literal>)
    ensures
        strictly_sorted(r@),
        same_elements(r@, literals@),
{
    let mut sorted: Vec<Literal> = Vec::new();
    let mut i: usize = 0;
    while i < literals.len()
        invariant
            i <= literals.len(),
            strictly_sorted(sorted@),
            forall|x: Literal| sorted@.contains(x) <==> literals@.subrange(0, i as int).contains(x),
        decreases literals.len() - i,
    {
        let ghost prev = sorted@;
        insert_literal(&mut sorted, literals[i]);
        proof {
            assert forall|x: Literal| sorted@.contains(x) <==> literals@.subrange(0, i + 1).contains(x) by {
                let s0 = literals@.subrange(0, i as int);
                let s1 = literals@.subrange(0, i + 1);
                assert(s1 == s0.push(literals@[i as int]));
                if s0.contains(x) {
                    let j = choose|j: int| 0 <= j < s0.len() && s0[j] == x;
                    assert(s1[j] == x);
                }
                if s1.contains(x) {
                    let j = choose|j: int| 0 <= j < s1.len() && s1[j] == x;
                    if j < i {
                        assert(s0[j] == x);
                    }
                }
                if x == literals@[i as int] {
                    assert(s1[i as int] == x);
                }
            }
        }
        i += 1;
    }
    assert(literals@.subrange(0, literals@.len() as int) == literals@);
    sorted
}

impl CNFClause {
    /// Literals strictly sorted, hence no literal twice.
    pub open spec fn wf(&self) -> bool {
        strictly_sorted(self@)
    }

    /// The clause's value under a partial model.
    pub open spec fn value(&self, m: Seq<Option<bool>>) -> Option<bool> {
        clause_value(self@, m)
    }

    /// A clause of the given literals, sorted and without repeats.
    pub fn new(literals: Vec<Literal>) -> (r: Self)
        ensures
            r.wf(),
            same_elements(r@, literals@),
    {
        CNFClause { literals }.normalize()
    }

    /// The clause `s`.
    pub fn new_pos(s: Symbol) -> (r: Self)
        ensures
            r.wf(),
            r@ == seq![Literal::Pos(s)],
    {
        let mut v: Vec<Literal> = Vec::new();
        v.push(Literal::Pos(s));
        assert(v@ =~= seq![Literal::Pos(s)]);
        let r = CNFClause::new(v);
        proof {
            lemma_sorted_singleton(r@, Literal::Pos(s));
        }
        r
    }

    /// The clause `~s`.
    pub fn new_neg(s: Symbol) -> (r: Self)
        ensures
            r.wf(),
            r@ == seq![Literal::Neg(s)],
    {
        let mut v: Vec<Literal> = Vec::new();
        v.push(Literal::Neg(s));
        assert(v@ =~= seq![Literal::Neg(s)]);
        let r = CNFClause::new(v);
        proof {
            lemma_sorted_singleton(r@, Literal::Neg(s));
        }
        r
    }

    /// The empty clause, which is false.
    pub fn new_empty() -> (r: Self)
        ensures
            r.wf(),
            r@ == Seq::<Literal>::empty(),
    {
        let v: Vec<Literal> = Vec::new();
        assert(v@ =~= Seq::<Literal>::empty());
        let r = CNFClause::new(v);
        proof {
            lemma_empty_elements(r@);
        }
        r
    }

    /// Whether the clause has no literal.
    pub fn is_empty(&self) -> (r: bool)
        ensures
            r == (self@.len() == 0),
    {
        self.literals.len() == 0
    }

    /// The clause with its literals sorted and repeats removed.
    pub fn normalize(self) -> (r: Self)
        ensures
            r.wf(),
            same_elements(r@, self@),
    {
        CNFClause { literals: sort_literals(&self.literals) }
    }

    /// The disjunction of the two clauses.
    pub fn join(&self, other: &Self) -> (r: Self)
        ensures
            r.wf(),
            same_elements(r@, self@ + other@),
    {
        let mut literals = self.literals.clone();
        let mut i: usize = 0;
        while i < other.literals.len()
            invariant
                i <= other.literals.len(),
                literals@ == self@ + other@.subrange(0, i as int),
            decreases other.literals.len() - i,
        {
            literals.push(other.literals[i]);
            proof {
                assert(other@.subrange(0, i + 1) == other@.subrange(0, i as int).push(other@[i as int]));
            }
            i += 1;
        }
        assert(other@.subrange(0, other@.len() as int) == other@);
        CNFClause::new(literals)
    }

    /// A copy of the clause.
    pub fn duplicate(&self) -> (r: Self)
        ensures
            r@ == self@,
            self.wf() ==> r.wf(),
    {
        CNFClause { literals: self.literals.clone() }
    }

    /// The literals of the clause, in order.
    pub fn literals(&self) -> (r: &[Literal])
        ensures
            r@ == self@,
    {
        self.literals.as_slice()
    }

    /// The clause as a sentence: `False` when empty, else the disjunction of
    /// its literals from the left.
    pub fn to_expr(&self) -> (r: Expr)
        ensures
            forall|m: Seq<bool>| #[trigger] r.value(m) == self.value(lift(m)),
    {
        if self.is_empty() {
            let r = build::f();
            proof {
                assert forall|m: Seq<bool>| #[trigger] r.value(m) == self.value(lift(m)) by {}
            }
            return r;
        }
        let mut expr = self.literals[0].to_expr();
        let mut i: usize = 1;
        proof {
            assert forall|m: Seq<bool>| #[trigger] expr.value(m) == clause_value(self@.subrange(0, 1), lift(m)) by {
                let s = self@.subrange(0, 1);
                assert(s[0] == self@[0]);
            }
        }
        while i < self.literals.len()
            invariant
                1 <= i <= self.literals.len(),
                forall|m: Seq<bool>| #[trigger] expr.value(m) == clause_value(self@.subrange(0, i as int), lift(m)),
            decreases self.literals.len() - i,
        {
            let lit_expr = self.literals[i].to_expr();
            let ghost prev = expr;
            expr = build::or(expr, lit_expr);
            proof {
                assert forall|m: Seq<bool>| #[trigger] expr.value(m) == clause_value(self@.subrange(0, i + 1), lift(m)) by {
                    let s0 = self@.subrange(0, i as int);
                    let one = seq![self@[i as int]];
                    assert(self@.subrange(0, i + 1) =~= s0 + one);
                    lemma_clause_value_concat(s0, one, lift(m));
                    assert(prev.value(m) == clause_value(s0, lift(m)));
                    lemma_clause_value_single(one, lift(m));
                    assert(lit_expr.value(m) == self@[i as int].value(lift(m)));
                }
            }
            i += 1;
        }
        assert(self@.subrange(0, self@.len() as int) == self@);
        expr
    }
}

impl CNFClause {
    /// The clause's value under a partial model, computed literal by literal.
    pub fn partial_truth(&self, model: &Model) -> (r: Option<bool>)
        ensures
            r == self.value(model@),
    {
        let mut truth: Option<bool> = Some(false);
        let mut i: usize = 0;
        while i < self.literals.len()
            invariant
                i <= self.literals.len(),
                truth == clause_value(self@.subrange(0, i as int), model@),
                truth != Some(true),
            decreases self.literals.len() - i,
        {
            let lit = self.literals[i];
            let v = lit.partial_truth(model);
            proof {
                let s0 = self@.subrange(0, i as int);
                let one = self@.subrange(i as int, i + 1);
                assert(self@.subrange(0, i + 1) =~= s0 + one);
                lemma_clause_value_concat(s0, one, model@);
                lemma_clause_value_single(one, model@);
                assert(one[0] == lit);
            }
            match v {
                Some(true) => {
                    proof {
                        let s1 = self@.subrange(0, i + 1);
                        assert(s1[i as int] == lit);
                        assert forall|j: int| i + 1 <= j <= self@.len() implies clause_value(self@.subrange(0, j), model@) == Some(true) by {
                            assert(self@.subrange(0, j)[i as int] == lit);
                        }
                        assert(self@.subrange(0, self@.len() as int) == self@);
                    }
                    return Some(true);
                },
                Some(false) => {},
                None => {
                    truth = None;
                },
            }
            i += 1;
        }
        assert(self@.subrange(0, self@.len() as int) == self@);
        truth
    }

    /// Appends the symbols of the clause's literals to `symbols`.
    pub fn collect_symbols(&self, symbols: &mut Vec<Symbol>)
        ensures
            final(symbols)@ == old(symbols)@ + self@.map_values(|l: Literal| l.sym()),
    {
        let mut i: usize = 0;
        while i < self.literals.len()
            invariant
                i <= self.literals.len(),
                symbols@ == old(symbols)@ + self@.subrange(0, i as int).map_values(|l: Literal| l.sym()),
            decreases self.literals.len() - i,
        {
            symbols.push(self.literals[i].symbol());
            proof {
                assert(self@.subrange(0, i + 1).map_values(|l: Literal| l.sym()) =~= self@.subrange(0, i as int).map_values(|l: Literal| l.sym()).push(self@[i as int].sym()));
            }
            i += 1;
        }
        assert(self@.subrange(0, self@.len() as int) == self@);
    }

    /// Compares the clauses literal by literal in the order of
    /// `Literal::key`: negative, zero or positive as `self` comes before, is
    /// equal to or comes after `other`.
    pub fn compare(&self, other: &CNFClause) -> (r: i8)
        ensures
            (r == 0) == (self@ == other@),
    {
        let mut k: usize = 0;
        while k < self.literals.len() && k < other.literals.len()
            invariant
                k <= self.literals.len(),
                k <= other.literals.len(),
                forall|j: int| 0 <= j < k ==> self@[j] == other@[j],
            decreases self.literals.len() - k,
        {
            if self.literals[k].less_than(&other.literals[k]) {
                return -1;
            }
            if other.literals[k].less_than(&self.literals[k]) {
                return 1;
            }
            proof {
                self@[k as int].lemma_key_injective(other@[k as int]);
            }
            k += 1;
        }
        if self.literals.len() < other.literals.len() {
            -1
        } else if other.literals.len() < self.literals.len() {
            1
        } else {
            assert(self@ =~= other@);
            0
        }
    }
}

impl Literal {
    /// The literal's value under a partial model.
    pub fn partial_truth(&self, model: &Model) -> (r: Option<bool>)
        ensures
            r == self.value(model@),
    {
        match self {
            Literal::Pos(s) => model.get(*s),
            Literal::Neg(s) => match model.get(*s) {
                Some(b) => Some(!b),
                None => None,
            },
        }
    }
}

/// The literal lists of a sequence of clauses.
pub open spec fn clause_views(cs: Seq<CNFClause>) -> Seq<Seq<Literal>> {
    cs.map_values(|c: CNFClause| c@)
}

/// A conjunction of clauses without repeats.
pub struct CNF {
    clauses: Vec<CNFClause>,
}

impl View for CNF {
    type V = Seq<Seq<Literal>>;

    closed spec fn view(&self) -> Seq<Seq<Literal>> {
        clause_views(self.clauses@)
    }
}

impl CNF {
    /// Every clause is normalized and no clause occurs twice.
    pub closed spec fn wf(&self) -> bool {
        &&& forall|i: int| 0 <= i < self.clauses@.len() ==> #[trigger] self.clauses@[i].wf()
        &&& self@.no_duplicates()
    }

    /// The conjunction's value under a partial model.
    pub open spec fn value(&self, m: Seq<Option<bool>>) -> Option<bool> {
        cnf_value(self@, m)
    }

    /// The conjunction of the given normalized clauses, with repeats removed.
    pub fn new(clauses: Vec<CNFClause>) -> (r: Self)
        requires
            forall|i: int| 0 <= i < clauses@.len() ==> #[trigger] clauses@[i].wf(),
        ensures
            r.wf(),
            same_elements(r@, clause_views(clauses@)),
    {
        let cnf = CNF { clauses };
        assert forall|i: int| 0 <= i < cnf@.len() implies strictly_sorted(#[trigger] cnf@[i]) by {
            assert(cnf@[i] == clauses@[i]@);
            assert(clauses@[i].wf());
        }
        cnf.normalize()
    }

    /// Whether there is no clause.
    pub fn is_empty(&self) -> (r: bool)
        ensures
            r == (self@.len() == 0),
    {
        self.clauses.len() == 0
    }

    /// The clauses in the order of `CNFClause::compare`, each once.
    pub fn normalize(self) -> (r: Self)
        requires
            forall|i: int| 0 <= i < self@.len() ==> strictly_sorted(#[trigger] self@[i]),
        ensures
            r.wf(),
            same_elements(r@, self@),
    {
        let mut sorted: Vec<CNFClause> = Vec::new();
        let mut i: usize = 0;
        assert forall|j: int| 0 <= j < self.clauses@.len() implies #[trigger] self.clauses@[j].wf() by {
            assert(self@[j] == self.clauses@[j]@);
        }
        while i < self.clauses.len()
            invariant
                i <= self.clauses.len(),
                forall|j: int| 0 <= j < self.clauses@.len() ==> #[trigger] self.clauses@[j].wf(),
                forall|j: int| 0 <= j < sorted@.len() ==> #[trigger] sorted@[j].wf(),
                clause_views(sorted@).no_duplicates(),
                same_elements(clause_views(sorted@), clause_views(self.clauses@.subrange(0, i as int))),
            decreases self.clauses.len() - i,
        {
            let c = &self.clauses[i];
            let ghost prev = sorted@;
            // is it already there, and where does it go?
            let mut found = false;
            let mut pos: usize = sorted.len();
            let mut j: usize = 0;
            while j < sorted.len()
                invariant
                    j <= sorted.len(),
                    sorted@ == prev,
                    pos <= sorted.len(),
                    found ==> clause_views(sorted@).contains(c@),
                    !found ==> forall|k: int| 0 <= k < j ==> #[trigger] sorted@[k]@ != c@,
                decreases sorted.len() - j,
            {
                let ord = sorted[j].compare(c);
                if ord == 0 {
                    found = true;
                    assert(clause_views(sorted@)[j as int] == c@);
                } else if ord > 0 && pos == sorted.len() {
                    pos = j;
                }
                j += 1;
            }
            let ghost before_views = clause_views(sorted@);
            if !found {
                sorted.insert(pos, c.duplicate());
                proof {
                    let after = clause_views(sorted@);
                    assert(after =~= before_views.insert(pos as int, c@));
                    assert forall|a: int, b: int| 0 <= a < b < after.len() implies after[a] != after[b] by {
                        if b < pos {
                        } else if a == pos {
                            assert(after[b] == before_views[b - 1]);
                            assert(before_views[b - 1] == prev[b - 1]@);
                        } else if b == pos {
                            assert(after[a] == before_views[a]);
                            assert(before_views[a] == prev[a]@);
                        } else if a < pos {
                            assert(after[a] == before_views[a] && after[b] == before_views[b - 1]);
                        } else {
                            assert(after[a] == before_views[a - 1] && after[b] == before_views[b - 1]);
                        }
                    }
                    assert forall|k: int| 0 <= k < sorted@.len() implies #[trigger] sorted@[k].wf() by {
                        if k < pos {
                            assert(sorted@[k] == prev[k]);
                        } else if k > pos {
                            assert(sorted@[k] == prev[k - 1]);
                        }
                    }
                }
            }
            proof {
                let after = clause_views(sorted@);
                let s0 = clause_views(self.clauses@.subrange(0, i as int));
                let s1 = clause_views(self.clauses@.subrange(0, i + 1));
                assert(s1 =~= s0.push(c@));
                assert forall|x: Seq<Literal>| after.contains(x) <==> s1.contains(x) by {
                    if after.contains(x) {
                        let k = choose|k: int| 0 <= k < after.len() && after[k] == x;
                        if !found {
                            if k < pos {
                                assert(before_views[k] == x);
                            } else if k > pos {
                                assert(before_views[k - 1] == x);
                            } else {
                                assert(s1[i as int] == x);
                            }
                        } else {
                            assert(before_views[k] == x);
                        }
                        if before_views.contains(x) {
                            let k2 = choose|k2: int| 0 <= k2 < s0.len() && s0[k2] == x;
                            assert(s1[k2] == x);
                        }
                    }
                    if s1.contains(x) {
                        let k = choose|k: int| 0 <= k < s1.len() && s1[k] == x;
                        if k < i {
                            assert(s0[k] == x);
                            assert(before_views.contains(x));
                            let k2 = choose|k2: int| 0 <= k2 < before_views.len() && before_views[k2] == x;
                            if !found {
                                if k2 < pos {
                                    assert(after[k2] == x);
                                } else {
                                    assert(after[k2 + 1] == x);
                                }
                            } else {
                                assert(after[k2] == x);
                            }
                        } else {
                            assert(x == c@);
                            if !found {
                                assert(after[pos as int] == x);
                            } else {
                                let k2 = choose|k2: int| 0 <= k2 < before_views.len() && before_views[k2] == x;
                                assert(after[k2] == x);
                            }
                        }
                    }
                }
            }
            i += 1;
        }
        assert(self.clauses@.subrange(0, self.clauses@.len() as int) == self.clauses@);
        CNF { clauses: sorted }
    }

    /// The clauses, in order.
    pub fn clauses(&self) -> (r: &[CNFClause])
        ensures
            clause_views(r@) == self@,
    {
        self.clauses.as_slice()
    }

    /// The conjunction's value under a partial model, computed clause by clause.
    pub fn partial_truth(&self, model: &Model) -> (r: Option<bool>)
        ensures
            r == self.value(model@),
    {
        let mut truth: Option<bool> = Some(true);
        let mut i: usize = 0;
        while i < self.clauses.len()
            invariant
                i <= self.clauses.len(),
                truth == cnf_value(self@.subrange(0, i as int), model@),
                truth != Some(false),
            decreases self.clauses.len() - i,
        {
            let v = self.clauses[i].partial_truth(model);
            proof {
                let s0 = self@.subrange(0, i as int);
                let one = self@.subrange(i as int, i + 1);
                assert(self@.subrange(0, i + 1) =~= s0 + one);
                lemma_cnf_value_concat(s0, one, model@);
                assert(one[0] == self.clauses@[i as int]@);
                lemma_cnf_value_single(one, model@);
            }
            match v {
                Some(false) => {
                    proof {
                        assert(self@[i as int] == self.clauses@[i as int]@);
                        assert(clause_value(self@[i as int], model@) == Some(false));
                    }
                    return Some(false);
                },
                Some(true) => {},
                None => {
                    truth = None;
                },
            }
            i += 1;
        }
        assert(self@.subrange(0, self@.len() as int) == self@);
        truth
    }

    /// The conjunction as a sentence: `True` when empty, else the
    /// conjunction of its clauses from the left.
    pub fn to_expr(&self) -> (r: Expr)
        ensures
            forall|m: Seq<bool>| #[trigger] r.value(m) == self.value(lift(m)),
    {
        if self.is_empty() {
            let r = build::t();
            proof {
                assert forall|m: Seq<bool>| #[trigger] r.value(m) == self.value(lift(m)) by {}
            }
            return r;
        }
        let mut expr = self.clauses[0].to_expr();
        let mut i: usize = 1;
        proof {
            assert forall|m: Seq<bool>| #[trigger] expr.value(m) == cnf_value(self@.subrange(0, 1), lift(m)) by {
                let one = self@.subrange(0, 1);
                assert(one[0] == self.clauses@[0]@);
                lemma_cnf_value_single(one, lift(m));
            }
        }
        while i < self.clauses.len()
            invariant
                1 <= i <= self.clauses.len(),
                forall|m: Seq<bool>| #[trigger] expr.value(m) == cnf_value(self@.subrange(0, i as int), lift(m)),
            decreases self.clauses.len() - i,
        {
            let clause_expr = self.clauses[i].to_expr();
            let ghost prev = expr;
            expr = build::and(expr, clause_expr);
            proof {
                assert forall|m: Seq<bool>| #[trigger] expr.value(m) == cnf_value(self@.subrange(0, i + 1), lift(m)) by {
                    let s0 = self@.subrange(0, i as int);
                    let one = self@.subrange(i as int, i + 1);
                    assert(self@.subrange(0, i + 1) =~= s0 + one);
                    lemma_cnf_value_concat(s0, one, lift(m));
                    assert(prev.value(m) == cnf_value(s0, lift(m)));
                    assert(one[0] == self.clauses@[i as int]@);
                    lemma_cnf_value_single(one, lift(m));
                    assert(clause_expr.value(m) == self.clauses@[i as int].value(lift(m)));
                }
            }
            i += 1;
        }
        assert(self@.subrange(0, self@.len() as int) == self@);
        expr
    }
}

/// A conjunction of one clause has that clause's value.
pub proof fn lemma_cnf_value_single(one: Seq<Seq<Literal>>, m: Seq<Option<bool>>)
    requires
        one.len() == 1,
    ensures
        cnf_value(one, m) == clause_value(one[0], m),
{
    let c = one[0];
    assert(forall|i: int| 0 <= i < one.len() ==> #[trigger] one[i] == c);
    match clause_value(c, m) {
        Some(false) => {
            assert(clause_value(one[0], m) == Some(false));
        },
        Some(true) => {
            assert(!exists|i: int| 0 <= i < one.len() && #[trigger] clause_value(one[i], m) == Some(false));
        },
        None => {
            assert(!(clause_value(one[0], m) == Some(true)));
            assert(!exists|i: int| 0 <= i < one.len() && #[trigger] clause_value(one[i], m) == Some(false));
        },
    }
}


/// The value of a conjunction depends only on which clauses occur.
pub proof fn lemma_cnf_value_elements(a: Seq<Seq<Literal>>, b: Seq<Seq<Literal>>, m: Seq<Option<bool>>)
    requires
        same_elements(a, b),
    ensures
        cnf_value(a, m) == cnf_value(b, m),
{
    if exists|i: int| 0 <= i < a.len() && #[trigger] clause_value(a[i], m) == Some(false) {
        let i = choose|i: int| 0 <= i < a.len() && #[trigger] clause_value(a[i], m) == Some(false);
        assert(a.contains(a[i]));
        let j = choose|j: int| 0 <= j < b.len() && b[j] == a[i];
        assert(clause_value(b[j], m) == Some(false));
    }
    if exists|i: int| 0 <= i < b.len() && #[trigger] clause_value(b[i], m) == Some(false) {
        let i = choose|i: int| 0 <= i < b.len() && #[trigger] clause_value(b[i], m) == Some(false);
        assert(b.contains(b[i]));
        let j = choose|j: int| 0 <= j < a.len() && a[j] == b[i];
        assert(clause_value(a[j], m) == Some(false));
    }
    if forall|i: int| 0 <= i < a.len() ==> #[trigger] clause_value(a[i], m) == Some(true) {
        assert forall|i: int| 0 <= i < b.len() implies #[trigger] clause_value(b[i], m) == Some(true) by {
            assert(b.contains(b[i]));
            let j = choose|j: int| 0 <= j < a.len() && a[j] == b[i];
            assert(clause_value(a[j], m) == Some(true));
        }
    }
    if forall|i: int| 0 <= i < b.len() ==> #[trigger] clause_value(b[i], m) == Some(true) {
        assert forall|i: int| 0 <= i < a.len() implies #[trigger] clause_value(a[i], m) == Some(true) by {
            assert(a.contains(a[i]));
            let j = choose|j: int| 0 <= j < b.len() && b[j] == a[i];
            assert(clause_value(b[j], m) == Some(true));
        }
    }
}

/// The literals of a clause tree; `None` when it contains `True`, which
/// makes the clause always true.
fn clause_literals(e: &Expr) -> (r: Option<Vec<Literal>>)
    requires
        e.is_clause_tree(),
    ensures
        r is None ==> forall|m: Seq<bool>| #[trigger] e.value(m) == Some(true),
        r matches Some(lits) ==> forall|m: Seq<bool>| #[trigger] e.value(m) == clause_value(lits@, lift(m)),
    decreases e,
{
    match e {
        Expr::True => None,
        Expr::False => {
            let v: Vec<Literal> = Vec::new();
            Some(v)
        },
        Expr::Var(s) => {
            let mut v: Vec<Literal> = Vec::new();
            v.push(Literal::Pos(*s));
            proof {
                assert forall|m: Seq<bool>| #[trigger] e.value(m) == clause_value(v@, lift(m)) by {
                    lemma_clause_value_single(v@, lift(m));
                }
            }
            Some(v)
        },
        Expr::Not(inner) => {
            let inner: &Expr = inner;
            match inner {
                Expr::Var(s) => {
                    let mut v: Vec<Literal> = Vec::new();
                    v.push(Literal::Neg(*s));
                    proof {
                        assert forall|m: Seq<bool>| #[trigger] e.value(m) == clause_value(v@, lift(m)) by {
                            lemma_clause_value_single(v@, lift(m));
                            assert(e.value(m) == not3(inner.value(m)));
                        }
                    }
                    Some(v)
                },
                _ => {
                    proof {
                        assert(false);
                    }
                    None
                },
            }
        },
        Expr::Or(lhs, rhs) => {
            let l = clause_literals(lhs);
            let r = clause_literals(rhs);
            match (l, r) {
                (Some(a), Some(b)) => {
                    let mut v = a;
                    let ghost av = v@;
                    let mut bv = b;
                    v.append(&mut bv);
                    proof {
                        assert forall|m: Seq<bool>| #[trigger] e.value(m) == clause_value(v@, lift(m)) by {
                            lemma_clause_value_concat(av, b@, lift(m));
                            assert(lhs.value(m) == clause_value(av, lift(m)));
                            assert(rhs.value(m) == clause_value(b@, lift(m)));
                        }
                    }
                    Some(v)
                },
                (l, r) => {
                    proof {
                        assert forall|m: Seq<bool>| #[trigger] e.value(m) == Some(true) by {
                            if l is None {
                                assert(lhs.value(m) == Some(true));
                            } else {
                                assert(rhs.value(m) == Some(true));
                            }
                        }
                    }
                    None
                },
            }
        },
        _ => {
            proof {
                assert(false);
            }
            None
        },
    }
}

/// Appends the clauses of a conjunctive normal form to `out`.
fn collect_clauses(e: &Expr, out: &mut Vec<CNFClause>)
    requires
        e.is_cnf_tree(),
        forall|i: int| 0 <= i < old(out)@.len() ==> #[trigger] old(out)@[i].wf(),
    ensures
        forall|i: int| 0 <= i < final(out)@.len() ==> #[trigger] final(out)@[i].wf(),
        forall|m: Seq<bool>| #[trigger] cnf_value(clause_views(final(out)@), lift(m))
            == and3(cnf_value(clause_views(old(out)@), lift(m)), e.value(m)),
    decreases e,
{
    match e {
        Expr::And(lhs, rhs) => {
            let ghost o0 = out@;
            collect_clauses(lhs, out);
            let ghost o1 = out@;
            collect_clauses(rhs, out);
            proof {
                assert forall|m: Seq<bool>| #[trigger] cnf_value(clause_views(out@), lift(m))
                    == and3(cnf_value(clause_views(o0), lift(m)), e.value(m)) by {
                    assert(cnf_value(clause_views(o1), lift(m)) == and3(cnf_value(clause_views(o0), lift(m)), lhs.value(m)));
                }
            }
        },
        _ => {
            match clause_literals(e) {
                Some(lits) => {
                    let ghost o0 = out@;
                    let clause = CNFClause::new(lits);
                    out.push(clause);
                    proof {
                        assert forall|m: Seq<bool>| #[trigger] cnf_value(clause_views(out@), lift(m))
                            == and3(cnf_value(clause_views(o0), lift(m)), e.value(m)) by {
                            let one = seq![clause@];
                            assert(clause_views(out@) =~= clause_views(o0) + one);
                            lemma_cnf_value_concat(clause_views(o0), one, lift(m));
                            lemma_cnf_value_single(one, lift(m));
                            lemma_clause_value_elements(clause@, lits@, lift(m));
                        }
                        assert forall|i: int| 0 <= i < out@.len() implies #[trigger] out@[i].wf() by {
                            if i < o0.len() {
                                assert(out@[i] == o0[i]);
                            }
                        }
                    }
                },
                None => {
                    proof {
                        assert forall|m: Seq<bool>| #[trigger] cnf_value(clause_views(out@), lift(m))
                            == and3(cnf_value(clause_views(out@), lift(m)), e.value(m)) by {
                            assert(e.value(m) == Some(true));
                        }
                    }
                },
            }
        },
    }
}

/// Conversion to conjunctive normal form.
pub trait ToCNF {
    /// The clauses of the conjunctive normal form.
    fn to_clauses(&self) -> Vec<CNFClause>;

    /// The conjunctive normal form.
    fn to_cnf(&self) -> CNF;
}

impl ToCNF for Expr {
    /// The clauses of the sentence's conjunctive normal form: their
    /// conjunction has the sentence's value in every partial model.
    fn to_clauses(&self) -> (r: Vec<CNFClause>)
        ensures
            forall|i: int| 0 <= i < r@.len() ==> #[trigger] r@[i].wf(),
            forall|m: Seq<bool>| #[trigger] cnf_value(clause_views(r@), lift(m)) == self.value(m),
    {
        let e = self.to_cnf_expr();
        let mut out: Vec<CNFClause> = Vec::new();
        collect_clauses(&e, &mut out);
        proof {
            assert forall|m: Seq<bool>| #[trigger] cnf_value(clause_views(out@), lift(m)) == self.value(m) by {
                assert(clause_views(Seq::<CNFClause>::empty()) =~= Seq::<Seq<Literal>>::empty());
                assert(e.value(m) == self.value(m));
            }
        }
        out
    }

    /// The sentence's conjunctive normal form, which has the sentence's value
    /// in every partial model.
    fn to_cnf(&self) -> (r: CNF)
        ensures
            r.wf(),
            forall|m: Seq<bool>| #[trigger] r.value(lift(m)) == self.value(m),
    {
        let clauses = self.to_clauses();
        let ghost views = clause_views(clauses@);
        let r = CNF::new(clauses);
        proof {
            assert forall|m: Seq<bool>| #[trigger] r.value(lift(m)) == self.value(m) by {
                lemma_cnf_value_elements(r@, views, lift(m));
                assert(cnf_value(views, lift(m)) == self.value(m));
            }
        }
        r
    }
}

} // verus!
