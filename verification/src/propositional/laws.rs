use vstd::prelude::*;
use super::cnf::{CNF, lift};
use super::expr::{Expr, not3};

verus! {

/// Two sentences are equivalent exactly when the sentence stating that they
/// are equivalent (`lhs <=> rhs`) is valid.
pub proof fn law_equivalent_iff_valid(lhs: Expr, rhs: Expr)
    ensures
        lhs.equivalent_to(rhs) == Expr::Iff(Box::new(lhs), Box::new(rhs)).is_valid(),
{
    let e = Expr::Iff(Box::new(lhs), Box::new(rhs));
    if lhs.equivalent_to(rhs) {
        assert forall|m: Seq<bool>| m.len() >= e.bound() implies #[trigger] e.value(m) == Some(true) by {
            lhs.lemma_value_known(m);
            rhs.lemma_value_known(m);
            assert(lhs.value(m) == rhs.value(m));
        }
    }
    if e.is_valid() {
        assert forall|m: Seq<bool>| m.len() >= lhs.bound() && m.len() >= rhs.bound() implies #[trigger] lhs.value(m) == rhs.value(m) by {
            assert(e.value(m) == Some(true));
        }
    }
}

/// A conjunctive normal form of a sentence, read back as a sentence, is
/// equivalent to the sentence.
pub proof fn law_cnf_round_trip(e: Expr, cnf: CNF, back: Expr)
    requires
        forall|m: Seq<bool>| #[trigger] cnf.value(lift(m)) == e.value(m),
        forall|m: Seq<bool>| #[trigger] back.value(m) == cnf.value(lift(m)),
    ensures
        e.equivalent_to(back),
{
    assert forall|m: Seq<bool>| m.len() >= e.bound() && m.len() >= back.bound() implies #[trigger] e.value(m) == back.value(m) by {
        assert(cnf.value(lift(m)) == e.value(m));
    }
}

/// Refutation: a sentence is valid exactly when no assignment satisfies the
/// conjunctive normal form of its negation.
pub proof fn law_valid_iff_negation_unsatisfiable(e: Expr, cnf: CNF)
    requires
        forall|m: Seq<bool>| #[trigger] cnf.value(lift(m)) == not3(e.value(m)),
    ensures
        e.is_valid() == !exists|t: Seq<bool>| #[trigger] cnf.value(lift(t)) == Some(true),
{
    if e.is_valid() {
        assert forall|t: Seq<bool>| #[trigger] cnf.value(lift(t)) != Some(true) by {
            if cnf.value(lift(t)) == Some(true) {
                assert(e.value(t) == Some(false));
                let ext = Seq::new(e.bound(), |i: int| false);
                e.lemma_value_extends(t, ext);
                assert(e.value(t + ext) == Some(true));
            }
        }
    } else {
        let m = choose|m: Seq<bool>| m.len() >= e.bound() && #[trigger] e.value(m) != Some(true);
        e.lemma_value_known(m);
        assert(cnf.value(lift(m)) == Some(true));
    }
}

} // verus!
