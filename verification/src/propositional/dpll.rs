use vstd::prelude::*;
use super::cnf::{CNF, CNFClause, Literal, clause_value, cnf_value, lift, model_get};
use super::expr::{Expr, Symbol, not3};
use super::model::Model;

verus! {

/// `t` assigns every symbol that `m` assigns, and the same way.
pub open spec fn refines(t: Seq<Option<bool>>, m: Seq<Option<bool>>) -> bool {
    &&& t.len() >= m.len()
    &&& forall|i: int| 0 <= i < m.len() && (#[trigger] m[i]) is Some ==> t[i] == m[i]
}

/// Some total assignment of the symbols below `m.len()` that agrees with `m`
/// makes every clause true.
pub open spec fn satisfiable_from(cs: Seq<Seq<Literal>>, m: Seq<Option<bool>>) -> bool {
    exists|t: Seq<bool>|
        t.len() == m.len() && refines(lift(t), m) && #[trigger] cnf_value(cs, lift(t)) == Some(true)
}

/// Every symbol of the clauses is below `n`.
pub open spec fn symbols_below(cs: Seq<Seq<Literal>>, n: nat) -> bool {
    forall|i: int, j: int| 0 <= i < cs.len() && 0 <= j < cs[i].len() ==> (#[trigger] cs[i][j]).sym() < n
}

/// Every symbol of the clauses is listed in `syms`.
pub open spec fn symbols_listed(cs: Seq<Seq<Literal>>, syms: Set<Symbol>) -> bool {
    forall|i: int, j: int| 0 <= i < cs.len() && 0 <= j < cs[i].len() ==> syms.contains((#[trigger] cs[i][j]).sym())
}

/// The literal that makes `s` take the value `v`.
pub open spec fn literal_of(s: Symbol, v: bool) -> Literal {
    if v { Literal::Pos(s) } else { Literal::Neg(s) }
}

/// `s` occurs in the clauses not yet made true by `m`, and there only as
/// `literal_of(s, v)`.
pub open spec fn pure_in(cs: Seq<Seq<Literal>>, m: Seq<Option<bool>>, s: Symbol, v: bool) -> bool {
    &&& exists|i: int, j: int|
        0 <= i < cs.len() && 0 <= j < cs[i].len() && clause_value(cs[i], m) != Some(true)
            && #[trigger] cs[i][j] == literal_of(s, v)
    &&& forall|i: int, j: int|
        0 <= i < cs.len() && 0 <= j < cs[i].len() && clause_value(cs[i], m) != Some(true)
            && (#[trigger] cs[i][j]).sym() == s ==> cs[i][j] == literal_of(s, v)
}

/// `c` is of unknown value under `m` and `l` is its only literal that is not
/// false.
pub open spec fn is_unit(c: Seq<Literal>, m: Seq<Option<bool>>, l: Literal) -> bool {
    &&& clause_value(c, m) is None
    &&& exists|j: int|
        0 <= j < c.len() && #[trigger] c[j] == l && l.value(m) is None
            && forall|k: int| 0 <= k < c.len() && k != j ==> (#[trigger] c[k]).value(m) == Some(false)
}

/// Some clause is a unit clause on `l`.
pub open spec fn unit_in(cs: Seq<Seq<Literal>>, m: Seq<Option<bool>>, l: Literal) -> bool {
    exists|i: int| 0 <= i < cs.len() && #[trigger] is_unit(cs[i], m, l)
}

/// The number of unassigned entries.
pub open spec fn count_none(m: Seq<Option<bool>>) -> nat
    decreases m.len(),
{
    if m.len() == 0 {
        0
    } else {
        count_none(m.drop_last()) + if m.last() is None { 1nat } else { 0nat }
    }
}

/// `m` with each unassigned entry set to false.
pub open spec fn fill(m: Seq<Option<bool>>) -> Seq<bool> {
    Seq::new(m.len(), |i: int| match m[i] { Some(b) => b, None => false })
}

proof fn lemma_count_none_update(m: Seq<Option<bool>>, s: int, b: bool)
    requires
        0 <= s < m.len(),
        m[s] is None,
    ensures
        count_none(m.update(s, Some(b))) + 1 == count_none(m),
    decreases m.len(),
{
    let m2 = m.update(s, Some(b));
    if s == m.len() - 1 {
        assert(m2.drop_last() =~= m.drop_last());
    } else {
        assert(m2.drop_last() =~= m.drop_last().update(s, Some(b)));
        lemma_count_none_update(m.drop_last(), s, b);
    }
}

/// A refinement keeps every known value.
pub proof fn lemma_refines_values(cs: Seq<Seq<Literal>>, t: Seq<Option<bool>>, m: Seq<Option<bool>>)
    requires
        refines(t, m),
    ensures
        forall|c: Seq<Literal>| #[trigger] clause_value(c, m) is Some ==> clause_value(c, t) == clause_value(c, m),
        cnf_value(cs, m) is Some ==> cnf_value(cs, t) == cnf_value(cs, m),
{
    assert forall|l: Literal| #[trigger] l.value(m) is Some implies l.value(t) == l.value(m) by {
        assert(m[l.sym() as int] is Some);
    }
    assert forall|c: Seq<Literal>| #[trigger] clause_value(c, m) is Some implies clause_value(c, t) == clause_value(c, m) by {
        if exists|i: int| 0 <= i < c.len() && #[trigger] c[i].value(m) == Some(true) {
            let i = choose|i: int| 0 <= i < c.len() && #[trigger] c[i].value(m) == Some(true);
            assert(c[i].value(t) == Some(true));
        } else {
            assert forall|i: int| 0 <= i < c.len() implies #[trigger] c[i].value(t) == Some(false) by {
                assert(c[i].value(m) == Some(false));
            }
        }
    }
    if cnf_value(cs, m) is Some {
        if exists|i: int| 0 <= i < cs.len() && #[trigger] clause_value(cs[i], m) == Some(false) {
            let i = choose|i: int| 0 <= i < cs.len() && #[trigger] clause_value(cs[i], m) == Some(false);
            assert(clause_value(cs[i], t) == Some(false));
        } else {
            assert forall|i: int| 0 <= i < cs.len() implies #[trigger] clause_value(cs[i], t) == Some(true) by {
                assert(clause_value(cs[i], m) == Some(true));
            }
        }
    }
}

/// Refinement is transitive.
pub proof fn lemma_refines_trans(a: Seq<Option<bool>>, b: Seq<Option<bool>>, c: Seq<Option<bool>>)
    requires
        refines(a, b),
        refines(b, c),
    ensures
        refines(a, c),
{
    assert forall|i: int| 0 <= i < c.len() && (#[trigger] c[i]) is Some implies a[i] == c[i] by {
        assert(b[i] == c[i]);
    }
}

proof fn lemma_known_value(cs: Seq<Seq<Literal>>, m: Seq<Option<bool>>, v: bool)
    requires
        cnf_value(cs, m) == Some(v),
    ensures
        satisfiable_from(cs, m) == v,
{
    if v {
        let t = fill(m);
        assert(refines(lift(t), m));
        lemma_refines_values(cs, lift(t), m);
        assert(cnf_value(cs, lift(t)) == Some(true));
    } else {
        assert forall|t: Seq<bool>| t.len() == m.len() && refines(lift(t), m) implies #[trigger] cnf_value(cs, lift(t)) != Some(true) by {
            lemma_refines_values(cs, lift(t), m);
        }
    }
}

proof fn lemma_split(cs: Seq<Seq<Literal>>, m: Seq<Option<bool>>, s: int)
    requires
        0 <= s < m.len(),
        m[s] is None,
    ensures
        satisfiable_from(cs, m) == (satisfiable_from(cs, m.update(s, Some(true)))
            || satisfiable_from(cs, m.update(s, Some(false)))),
{
    if satisfiable_from(cs, m) {
        let t = choose|t: Seq<bool>| t.len() == m.len() && refines(lift(t), m) && #[trigger] cnf_value(cs, lift(t)) == Some(true);
        let m2 = m.update(s, Some(t[s]));
        assert(refines(lift(t), m2));
        if t[s] {
            assert(satisfiable_from(cs, m.update(s, Some(true))));
        } else {
            assert(satisfiable_from(cs, m.update(s, Some(false))));
        }
    }
    assert forall|b: bool| satisfiable_from(cs, #[trigger] m.update(s, Some(b))) implies satisfiable_from(cs, m) by {
        let m2 = m.update(s, Some(b));
        let t = choose|t: Seq<bool>| t.len() == m2.len() && refines(lift(t), m2) && #[trigger] cnf_value(cs, lift(t)) == Some(true);
        assert(refines(m2, m));
        lemma_refines_trans(lift(t), m2, m);
    }
    if satisfiable_from(cs, m.update(s, Some(true))) {
        assert(satisfiable_from(cs, m));
    }
    if satisfiable_from(cs, m.update(s, Some(false))) {
        assert(satisfiable_from(cs, m));
    }
}

/// Assigning a symbol can only lose models, never gain them.
proof fn lemma_assign_narrows(cs: Seq<Seq<Literal>>, m: Seq<Option<bool>>, s: int, b: bool)
    requires
        0 <= s < m.len(),
        m[s] is None,
    ensures
        satisfiable_from(cs, m.update(s, Some(b))) ==> satisfiable_from(cs, m),
{
    lemma_split(cs, m, s);
}

proof fn lemma_unit(cs: Seq<Seq<Literal>>, m: Seq<Option<bool>>, l: Literal)
    requires
        unit_in(cs, m, l),
        symbols_below(cs, m.len()),
    ensures
        l.sym() < m.len(),
        m[l.sym() as int] is None,
        satisfiable_from(cs, m) == satisfiable_from(cs, m.update(l.sym() as int, Some(l.positive()))),
{
    let i = choose|i: int| 0 <= i < cs.len() && #[trigger] is_unit(cs[i], m, l);
    let j = choose|j: int|
        0 <= j < cs[i].len() && #[trigger] cs[i][j] == l && l.value(m) is None
            && forall|k: int| 0 <= k < cs[i].len() && k != j ==> (#[trigger] cs[i][k]).value(m) == Some(false);
    let s = l.sym() as int;
    assert(cs[i][j].sym() < m.len());
    let m2 = m.update(s, Some(l.positive()));
    if satisfiable_from(cs, m) {
        let t = choose|t: Seq<bool>| t.len() == m.len() && refines(lift(t), m) && #[trigger] cnf_value(cs, lift(t)) == Some(true);
        lemma_refines_values(cs, lift(t), m);
        assert(clause_value(cs[i], lift(t)) == Some(true));
        let k = choose|k: int| 0 <= k < cs[i].len() && #[trigger] cs[i][k].value(lift(t)) == Some(true);
        if k != j {
            assert(cs[i][k].value(m) == Some(false));
            assert(m[cs[i][k].sym() as int] is Some);
        }
        assert(l.value(lift(t)) == Some(true));
        assert(t[s] == l.positive());
        assert(refines(lift(t), m2));
        assert(satisfiable_from(cs, m2));
    }
    lemma_assign_narrows(cs, m, s, l.positive());
}

proof fn lemma_pure(cs: Seq<Seq<Literal>>, m: Seq<Option<bool>>, s: Symbol, v: bool)
    requires
        pure_in(cs, m, s, v),
        s < m.len(),
        m[s as int] is None,
    ensures
        satisfiable_from(cs, m) == satisfiable_from(cs, m.update(s as int, Some(v))),
{
    let m2 = m.update(s as int, Some(v));
    if satisfiable_from(cs, m) {
        let t = choose|t: Seq<bool>| t.len() == m.len() && refines(lift(t), m) && #[trigger] cnf_value(cs, lift(t)) == Some(true);
        let t2 = t.update(s as int, v);
        lemma_refines_values(cs, lift(t), m);
        assert forall|i: int| 0 <= i < cs.len() implies #[trigger] clause_value(cs[i], lift(t2)) == Some(true) by {
            assert(clause_value(cs[i], lift(t)) == Some(true));
            if clause_value(cs[i], m) == Some(true) {
                let k = choose|k: int| 0 <= k < cs[i].len() && #[trigger] cs[i][k].value(m) == Some(true);
                assert(cs[i][k].sym() != s);
                assert(cs[i][k].value(lift(t2)) == Some(true));
            } else {
                let k = choose|k: int| 0 <= k < cs[i].len() && #[trigger] cs[i][k].value(lift(t)) == Some(true);
                if cs[i][k].sym() == s {
                    assert(cs[i][k] == literal_of(s, v));
                    assert(cs[i][k].value(lift(t2)) == Some(true));
                } else {
                    assert(cs[i][k].value(lift(t2)) == Some(true));
                }
            }
        }
        assert(refines(lift(t2), m2));
        assert(cnf_value(cs, lift(t2)) == Some(true));
        assert(satisfiable_from(cs, m2));
    }
    lemma_assign_narrows(cs, m, s as int, v);
}


/// With every listed symbol assigned, the conjunction has a known value.
proof fn lemma_all_assigned(cs: Seq<Seq<Literal>>, m: Seq<Option<bool>>, syms: Set<Symbol>)
    requires
        symbols_listed(cs, syms),
        forall|s: Symbol| #[trigger] syms.contains(s) ==> model_get(m, s) is Some,
    ensures
        cnf_value(cs, m) is Some,
{
    assert forall|i: int| 0 <= i < cs.len() implies #[trigger] clause_value(cs[i], m) is Some by {
        assert forall|j: int| 0 <= j < cs[i].len() implies #[trigger] cs[i][j].value(m) is Some by {
            assert(syms.contains(cs[i][j].sym()));
        }
        if !exists|j: int| 0 <= j < cs[i].len() && #[trigger] cs[i][j].value(m) == Some(true) {
            assert forall|j: int| 0 <= j < cs[i].len() implies #[trigger] cs[i][j].value(m) == Some(false) by {
                assert(cs[i][j].value(m) is Some);
            }
        }
    }
    if !exists|i: int| 0 <= i < cs.len() && #[trigger] clause_value(cs[i], m) == Some(false) {
        assert forall|i: int| 0 <= i < cs.len() implies #[trigger] clause_value(cs[i], m) == Some(true) by {
            assert(clause_value(cs[i], m) is Some);
        }
    }
}

/// Models that agree on every literal of the clauses give them the same value.
proof fn lemma_same_literal_values(cs: Seq<Seq<Literal>>, m1: Seq<Option<bool>>, m2: Seq<Option<bool>>)
    requires
        forall|i: int, j: int| 0 <= i < cs.len() && 0 <= j < cs[i].len() ==>
            (#[trigger] cs[i][j]).value(m1) == cs[i][j].value(m2),
    ensures
        cnf_value(cs, m1) == cnf_value(cs, m2),
{
    assert forall|i: int| 0 <= i < cs.len() implies #[trigger] clause_value(cs[i], m1) == clause_value(cs[i], m2) by {
        assert forall|j: int| 0 <= j < cs[i].len() implies #[trigger] cs[i][j].value(m1) == cs[i][j].value(m2) by {}
        if exists|j: int| 0 <= j < cs[i].len() && #[trigger] cs[i][j].value(m1) == Some(true) {
            let j = choose|j: int| 0 <= j < cs[i].len() && #[trigger] cs[i][j].value(m1) == Some(true);
            assert(cs[i][j].value(m2) == Some(true));
        }
        if exists|j: int| 0 <= j < cs[i].len() && #[trigger] cs[i][j].value(m2) == Some(true) {
            let j = choose|j: int| 0 <= j < cs[i].len() && #[trigger] cs[i][j].value(m2) == Some(true);
            assert(cs[i][j].value(m1) == Some(true));
        }
    }
    if exists|i: int| 0 <= i < cs.len() && #[trigger] clause_value(cs[i], m1) == Some(false) {
        let i = choose|i: int| 0 <= i < cs.len() && #[trigger] clause_value(cs[i], m1) == Some(false);
        assert(clause_value(cs[i], m2) == Some(false));
    }
    if forall|i: int| 0 <= i < cs.len() ==> #[trigger] clause_value(cs[i], m1) == Some(true) {
        assert forall|i: int| 0 <= i < cs.len() implies #[trigger] clause_value(cs[i], m2) == Some(true) by {
            assert(clause_value(cs[i], m1) == Some(true));
        }
    }
    if forall|i: int| 0 <= i < cs.len() ==> #[trigger] clause_value(cs[i], m2) == Some(true) {
        assert forall|i: int| 0 <= i < cs.len() implies #[trigger] clause_value(cs[i], m1) == Some(true) by {
            assert(clause_value(cs[i], m2) == Some(true));
        }
    }
    if exists|i: int| 0 <= i < cs.len() && #[trigger] clause_value(cs[i], m2) == Some(false) {
        let i = choose|i: int| 0 <= i < cs.len() && #[trigger] clause_value(cs[i], m2) == Some(false);
        assert(clause_value(cs[i], m1) == Some(false));
    }
}

/// From the model that assigns nothing, DPLL's question is whether any
/// assignment whatever makes the conjunction true.
proof fn lemma_satisfiable_from_nothing(cs: Seq<Seq<Literal>>, m: Seq<Option<bool>>)
    requires
        symbols_below(cs, m.len()),
        forall|i: int| 0 <= i < m.len() ==> #[trigger] m[i] is None,
    ensures
        satisfiable_from(cs, m) == exists|t: Seq<bool>| #[trigger] cnf_value(cs, lift(t)) == Some(true),
{
    if exists|t: Seq<bool>| #[trigger] cnf_value(cs, lift(t)) == Some(true) {
        let t = choose|t: Seq<bool>| #[trigger] cnf_value(cs, lift(t)) == Some(true);
        let n = m.len();
        let u = Seq::new(n, |i: int| if i < t.len() { Some(t[i]) } else { None });
        let t2 = Seq::new(n, |i: int| if i < t.len() { t[i] } else { false });
        assert forall|i: int, j: int| 0 <= i < cs.len() && 0 <= j < cs[i].len() implies
            (#[trigger] cs[i][j]).value(u) == cs[i][j].value(lift(t)) by {
            assert(cs[i][j].sym() < n);
        }
        lemma_same_literal_values(cs, u, lift(t));
        assert(refines(lift(t2), u));
        lemma_refines_values(cs, lift(t2), u);
        assert(refines(lift(t2), m));
        assert(cnf_value(cs, lift(t2)) == Some(true));
    }
}

/// The literal occurs with the other sign in no clause that `m` leaves
/// not true.
spec fn pure_literal(cs: Seq<Seq<Literal>>, m: Seq<Option<bool>>, l: Literal) -> bool {
    forall|i: int, j: int|
        0 <= i < cs.len() && 0 <= j < cs[i].len() && clause_value(cs[i], m) != Some(true)
            && (#[trigger] cs[i][j]).sym() == l.sym() ==> cs[i][j] == l
}

/// Whether `l` is pure in the clauses that `model` leaves not true.
fn literal_is_pure(cnf: &CNF, model: &Model, l: Literal) -> (r: bool)
    ensures
        r == pure_literal(cnf@, model@, l),
{
    let clauses = cnf.clauses();
    let ghost cs = cnf@;
    let ghost m = model@;
    let mut i: usize = 0;
    while i < clauses.len()
        invariant
            m == model@,
            cs == cnf@,
            i <= clauses@.len(),
            cs.len() == clauses@.len(),
            forall|k: int| 0 <= k < cs.len() ==> #[trigger] cs[k] == clauses@[k]@,
            forall|a: int, b: int|
                0 <= a < i && 0 <= b < cs[a].len() && clause_value(cs[a], m) != Some(true)
                    && (#[trigger] cs[a][b]).sym() == l.sym() ==> cs[a][b] == l,
        decreases clauses.len() - i,
    {
        let c = &clauses[i];
        assert(cs[i as int] == c@);
        let t = c.partial_truth(model);
        let known_true = match t {
            Some(b) => b,
            None => false,
        };
        if !known_true {
            let lits = c.literals();
            let mut j: usize = 0;
            while j < lits.len()
                invariant
            m == model@,
            cs == cnf@,
                    i < clauses@.len(),
                    j <= lits@.len(),
                    lits@ == cs[i as int],
                    cs.len() == clauses@.len(),
                    clause_value(cs[i as int], m) != Some(true),
                    forall|b: int| 0 <= b < j && (#[trigger] cs[i as int][b]).sym() == l.sym() ==> cs[i as int][b] == l,
                decreases lits.len() - j,
            {
                let x = lits[j];
                if x.symbol() == l.symbol() && x != l {
                    assert(cs[i as int][j as int] == x);
                    return false;
                }
                j += 1;
            }
        }
        i += 1;
    }
    true
}

/// `s` is pure with sign `v` only if the best symbol found so far is at most `s`.
spec fn covered(cs: Seq<Seq<Literal>>, m: Seq<Option<bool>>, best: Option<(Symbol, bool)>, s: Symbol) -> bool {
    forall|v: bool| #[trigger] pure_in(cs, m, s, v) ==> (best matches Some((b, _)) && b <= s)
}

/// The smallest unassigned symbol that is pure in the clauses not yet true,
/// with the value that makes its literals true.
fn find_pure_symbol(cnf: &CNF, model: &Model) -> (r: Option<(Symbol, bool)>)
    ensures
        r matches Some((s, v)) ==> pure_in(cnf@, model@, s, v) && model_get(model@, s) is None
            && forall|s2: Symbol, v2: bool| s2 < s && model_get(model@, s2) is None ==> !#[trigger] pure_in(cnf@, model@, s2, v2),
        r is None ==> forall|s: Symbol, v: bool| model_get(model@, s) is None ==> !#[trigger] pure_in(cnf@, model@, s, v),
{
    let clauses = cnf.clauses();
    let ghost cs = cnf@;
    let ghost m = model@;
    let mut best: Option<(Symbol, bool)> = None;
    let mut i: usize = 0;
    while i < clauses.len()
        invariant
            m == model@,
            cs == cnf@,
            i <= clauses@.len(),
            cs.len() == clauses@.len(),
            forall|k: int| 0 <= k < cs.len() ==> #[trigger] cs[k] == clauses@[k]@,
            best matches Some((s, v)) ==> pure_in(cs, m, s, v) && model_get(m, s) is None,
            forall|a: int, b: int|
                0 <= a < i && 0 <= b < cs[a].len() && clause_value(cs[a], m) != Some(true)
                    && model_get(m, cs[a][b].sym()) is None ==> #[trigger] covered(cs, m, best, cs[a][b].sym()),
        decreases clauses.len() - i,
    {
        let c = &clauses[i];
        assert(cs[i as int] == c@);
        let t = c.partial_truth(model);
        let known_true = match t {
            Some(b) => b,
            None => false,
        };
        if !known_true {
            let lits = c.literals();
            let mut j: usize = 0;
            while j < lits.len()
                invariant
            m == model@,
            cs == cnf@,
                    i < clauses@.len(),
                    j <= lits@.len(),
                    lits@ == cs[i as int],
                    cs.len() == clauses@.len(),
                    clause_value(cs[i as int], m) != Some(true),
                    best matches Some((s, v)) ==> pure_in(cs, m, s, v) && model_get(m, s) is None,
                    forall|a: int, b: int|
                        0 <= a < i && 0 <= b < cs[a].len() && clause_value(cs[a], m) != Some(true)
                            && model_get(m, cs[a][b].sym()) is None ==> #[trigger] covered(cs, m, best, cs[a][b].sym()),
                    forall|b: int|
                        0 <= b < j && model_get(m, cs[i as int][b].sym()) is None ==> #[trigger] covered(cs, m, best, cs[i as int][b].sym()),
                decreases lits.len() - j,
            {
                let x = lits[j];
                let s = x.symbol();
                let ghost old_best = best;
                assert(cs[i as int][j as int] == x);
                if !model.contains(s) {
                    let pure = literal_is_pure(cnf, model, x);
                    if pure {
                        let v = match x {
                            Literal::Pos(_) => true,
                            Literal::Neg(_) => false,
                        };
                        assert(x == literal_of(s, v));
                        assert(pure_in(cs, m, s, v));
                        let better = match best {
                            Some((b, _)) => s < b,
                            None => true,
                        };
                        if better {
                            best = Some((s, v));
                        }
                        proof {
                            assert forall|v2: bool| #[trigger] pure_in(cs, m, s, v2) implies (best matches Some((b, _)) && b <= s) by {}
                            assert(covered(cs, m, best, s));
                            assert forall|a: int, b: int|
                                0 <= a < i && 0 <= b < cs[a].len() && clause_value(cs[a], m) != Some(true)
                                    && model_get(m, cs[a][b].sym()) is None implies #[trigger] covered(cs, m, best, cs[a][b].sym()) by {
                                assert(covered(cs, m, old_best, cs[a][b].sym()));
                            }
                            assert forall|b: int|
                                0 <= b < j && model_get(m, cs[i as int][b].sym()) is None implies #[trigger] covered(cs, m, best, cs[i as int][b].sym()) by {
                                assert(covered(cs, m, old_best, cs[i as int][b].sym()));
                            }
                        }
                    } else {
                        proof {
                            assert forall|v2: bool| #[trigger] pure_in(cs, m, s, v2) implies (best matches Some((b, _)) && b <= s) by {
                                let (a, b) = choose|a: int, b: int|
                                    0 <= a < cs.len() && 0 <= b < cs[a].len() && clause_value(cs[a], m) != Some(true)
                                        && (#[trigger] cs[a][b]).sym() == x.sym() && cs[a][b] != x;
                                assert(cs[a][b] == literal_of(s, v2));
                                assert(cs[i as int][j as int] == literal_of(s, v2));
                            }
                        }
                    }
                }
                j += 1;
            }
        }
        i += 1;
    }
    proof {
        assert forall|s2: Symbol, v2: bool| model_get(m, s2) is None && #[trigger] pure_in(cs, m, s2, v2)
            implies (best matches Some((b, _)) && b <= s2) by {
            let (a, b) = choose|a: int, b: int|
                0 <= a < cs.len() && 0 <= b < cs[a].len() && clause_value(cs[a], m) != Some(true)
                    && #[trigger] cs[a][b] == literal_of(s2, v2);
            assert(covered(cs, m, best, cs[a][b].sym()));
        }
    }
    best
}

/// The literal of `c` that makes it a unit clause under `model`, if any.
fn unit_literal(c: &CNFClause, model: &Model) -> (r: Option<Literal>)
    ensures
        r matches Some(l) ==> is_unit(c@, model@, l),
        r is None ==> forall|l: Literal| !#[trigger] is_unit(c@, model@, l),
{
    let ghost m = model@;
    if c.partial_truth(model).is_some() {
        return None;
    }
    let lits = c.literals();
    let mut found: Option<usize> = None;
    let mut j: usize = 0;
    while j < lits.len()
        invariant
            m == model@,
            j <= lits@.len(),
            lits@ == c@,
            clause_value(c@, m) is None,
            found matches Some(f) ==> f < j && c@[f as int].value(m) is None
                && forall|k: int| 0 <= k < j && k != f ==> (#[trigger] c@[k]).value(m) is Some,
            found is None ==> forall|k: int| 0 <= k < j ==> (#[trigger] c@[k]).value(m) is Some,
        decreases lits.len() - j,
    {
        if lits[j].partial_truth(model).is_none() {
            if let Some(f) = found {
                proof {
                    assert forall|l: Literal| !#[trigger] is_unit(c@, m, l) by {
                        if is_unit(c@, m, l) {
                            let jj = choose|jj: int|
                                0 <= jj < c@.len() && #[trigger] c@[jj] == l && l.value(m) is None
                                    && forall|k: int| 0 <= k < c@.len() && k != jj ==> (#[trigger] c@[k]).value(m) == Some(false);
                            if jj == f {
                                assert(c@[j as int].value(m) == Some(false));
                            } else {
                                assert(c@[f as int].value(m) == Some(false));
                            }
                        }
                    }
                }
                return None;
            }
            found = Some(j);
        }
        j += 1;
    }
    match found {
        Some(f) => {
            let l = lits[f];
            proof {
                assert(!exists|k: int| 0 <= k < c@.len() && #[trigger] c@[k].value(m) == Some(true));
                assert forall|k: int| 0 <= k < c@.len() && k != f implies (#[trigger] c@[k]).value(m) == Some(false) by {
                    assert(c@[k].value(m) is Some);
                    if c@[k].value(m) == Some(true) {
                        assert(exists|k: int| 0 <= k < c@.len() && #[trigger] c@[k].value(m) == Some(true));
                    }
                }
                assert(c@[f as int] == l);
            }
            Some(l)
        },
        None => {
            proof {
                if !exists|k: int| 0 <= k < c@.len() && #[trigger] c@[k].value(m) == Some(true) {
                    assert forall|k: int| 0 <= k < c@.len() implies #[trigger] c@[k].value(m) == Some(false) by {
                        assert(c@[k].value(m) is Some);
                    }
                }
            }
            None
        },
    }
}

/// The first clause that is a unit clause under `m` is clause `i`, on `l`.
pub open spec fn first_unit(cs: Seq<Seq<Literal>>, m: Seq<Option<bool>>, i: int, l: Literal) -> bool {
    &&& 0 <= i < cs.len()
    &&& is_unit(cs[i], m, l)
    &&& forall|i2: int, l2: Literal| 0 <= i2 < i ==> !#[trigger] is_unit(cs[i2], m, l2)
}

/// The literal of the first unit clause, if any.
fn find_unique_clause(cnf: &CNF, model: &Model) -> (r: Option<Literal>)
    ensures
        r matches Some(l) ==> exists|i: int| #[trigger] first_unit(cnf@, model@, i, l),
        r is None ==> forall|l: Literal| !#[trigger] unit_in(cnf@, model@, l),
{
    let clauses = cnf.clauses();
    let ghost cs = cnf@;
    let ghost m = model@;
    let mut i: usize = 0;
    while i < clauses.len()
        invariant
            m == model@,
            cs == cnf@,
            i <= clauses@.len(),
            cs.len() == clauses@.len(),
            forall|k: int| 0 <= k < cs.len() ==> #[trigger] cs[k] == clauses@[k]@,
            forall|i2: int, l2: Literal| 0 <= i2 < i ==> !#[trigger] is_unit(cs[i2], m, l2),
        decreases clauses.len() - i,
    {
        assert(cs[i as int] == clauses@[i as int]@);
        match unit_literal(&clauses[i], model) {
            Some(l) => {
                assert(first_unit(cs, m, i as int, l));
                return Some(l);
            },
            None => {},
        }
        i += 1;
    }
    None
}

/// Whether some total assignment that agrees with `model` makes every clause
/// true; `model` is left as it was.
fn dpll(cnf: &CNF, model: &mut Model) -> (r: bool)
    requires
        symbols_below(cnf@, old(model)@.len()),
        symbols_listed(cnf@, old(model).syms()),
    ensures
        final(model)@ == old(model)@,
        final(model).syms() == old(model).syms(),
        r == satisfiable_from(cnf@, old(model)@),
    decreases count_none(old(model)@), 1nat,
{
    let ghost cs = cnf@;
    let ghost m = model@;
    match cnf.partial_truth(model) {
        Some(t) => {
            proof {
                lemma_known_value(cs, m, t);
            }
            return t;
        },
        None => {},
    }
    match find_pure_symbol(cnf, model) {
        Some((s, v)) => {
            proof {
                let (a, b) = choose|a: int, b: int|
                    0 <= a < cs.len() && 0 <= b < cs[a].len() && clause_value(cs[a], m) != Some(true)
                        && #[trigger] cs[a][b] == literal_of(s, v);
                assert(cs[a][b].sym() == s);
                assert(model.syms().contains(s));
                lemma_pure(cs, m, s, v);
            }
            return backtrack(s, v, cnf, model);
        },
        None => {},
    }
    match find_unique_clause(cnf, model) {
        Some(l) => {
            let s = l.symbol();
            let v = match l {
                Literal::Pos(_) => true,
                Literal::Neg(_) => false,
            };
            proof {
                let i = choose|i: int| #[trigger] first_unit(cs, m, i, l);
                assert(unit_in(cs, m, l));
                lemma_unit(cs, m, l);
                let j = choose|j: int|
                    0 <= j < cs[i].len() && #[trigger] cs[i][j] == l && l.value(m) is None
                        && forall|k: int| 0 <= k < cs[i].len() && k != j ==> (#[trigger] cs[i][k]).value(m) == Some(false);
                assert(model.syms().contains(cs[i][j].sym()));
            }
            return backtrack(s, v, cnf, model);
        },
        None => {},
    }
    match model.next_symbol() {
        Some(s) => {
            let true_ret = backtrack(s, true, cnf, model);
            let false_ret = backtrack(s, false, cnf, model);
            proof {
                lemma_split(cs, m, s as int);
            }
            true_ret || false_ret
        },
        None => {
            proof {
                lemma_all_assigned(cs, m, model.syms());
            }
            false
        },
    }
}

/// Assigns `t` to `symbol`, decides the rest with `dpll`, and undoes the
/// assignment.
fn backtrack(symbol: Symbol, t: bool, cnf: &CNF, model: &mut Model) -> (r: bool)
    requires
        symbols_below(cnf@, old(model)@.len()),
        symbols_listed(cnf@, old(model).syms()),
        old(model).syms().contains(symbol),
        symbol < old(model)@.len(),
        old(model)@[symbol as int] is None,
    ensures
        final(model)@ == old(model)@,
        final(model).syms() == old(model).syms(),
        r == satisfiable_from(cnf@, old(model)@.update(symbol as int, Some(t))),
    decreases count_none(old(model)@), 0nat,
{
    let ghost m0 = model@;
    model.insert(symbol, t);
    proof {
        lemma_count_none_update(m0, symbol as int, t);
    }
    let r = dpll(cnf, model);
    model.remove(symbol);
    assert(model@ =~= m0);
    r
}

impl CNF {
    /// Whether some assignment of the symbols makes every clause true,
    /// decided by DPLL with the pure-symbol and unit-clause heuristics.
    /// The answer is exact on every conjunction: a pure symbol is one that
    /// occurs with a single sign among the clauses not yet true, and a
    /// split tries both values of its symbol, so no satisfiable conjunction
    /// is ever answered `false` (for example `(A | B) & (~A | ~B)` is
    /// answered `true`).
    pub fn satisfiable(&self) -> (r: bool)
        ensures
            r == exists|t: Seq<bool>| #[trigger] self.value(lift(t)) == Some(true),
    {
        let mut model = Model::new(self);
        let ghost m = model@;
        let r = dpll(self, &mut model);
        proof {
            lemma_satisfiable_from_nothing(self@, m);
            if r {
                let t = choose|t: Seq<bool>| #[trigger] cnf_value(self@, lift(t)) == Some(true);
                assert(self.value(lift(t)) == Some(true));
            } else {
                assert forall|t: Seq<bool>| #[trigger] self.value(lift(t)) != Some(true) by {
                    if self.value(lift(t)) == Some(true) {
                        assert(cnf_value(self@, lift(t)) == Some(true));
                    }
                }
            }
        }
        r
    }
}

} // verus!
