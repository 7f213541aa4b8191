//! Constructors of terms and sentences.

use vstd::prelude::*;
use super::term::{Term, TermV, Var, tview, tviews};
use super::sentence::{Quantifier, Sentence, SentenceV, sview};

verus! {

/// The variable `v`.
pub fn var(v: Var) -> (r: Term)
    ensures
        tview(r) == TermV::Var(v),
{
    Term::Variable(v)
}

/// The constant named `c`.
pub fn cst(c: &str) -> (r: Term)
    ensures
        tview(r) == TermV::Cst(c@),
{
    Term::Constant(c.to_owned())
}

/// The function `name` applied to `args`.
pub fn func(name: &str, args: Vec<Term>) -> (r: Term)
    ensures
        tview(r) == TermV::Fun(name@, tviews(args@, args@.len())),
{
    Term::Function(name.to_owned(), args)
}

/// The predicate `name` applied to `args`.
pub fn pred(name: &str, args: Vec<Term>) -> (r: Sentence)
    ensures
        sview(r) == SentenceV::Pred(name@, tviews(args@, args@.len())),
{
    Sentence::Predicate(name.to_owned(), args)
}

/// The negation of `s`.
pub fn not(s: Sentence) -> (r: Sentence)
    ensures
        r == Sentence::Not(Box::new(s)),
        sview(r) == SentenceV::Not(Box::new(sview(s))),
{
    Sentence::Not(Box::new(s))
}

/// The conjunction of `lhs` and `rhs`.
pub fn and(lhs: Sentence, rhs: Sentence) -> (r: Sentence)
    ensures
        r == Sentence::And(Box::new(lhs), Box::new(rhs)),
        sview(r) == SentenceV::And(Box::new(sview(lhs)), Box::new(sview(rhs))),
{
    Sentence::And(Box::new(lhs), Box::new(rhs))
}

/// The disjunction of `lhs` and `rhs`.
pub fn or(lhs: Sentence, rhs: Sentence) -> (r: Sentence)
    ensures
        r == Sentence::Or(Box::new(lhs), Box::new(rhs)),
        sview(r) == SentenceV::Or(Box::new(sview(lhs)), Box::new(sview(rhs))),
{
    Sentence::Or(Box::new(lhs), Box::new(rhs))
}

/// `lhs` implies `rhs`.
pub fn imply(lhs: Sentence, rhs: Sentence) -> (r: Sentence)
    ensures
        r == Sentence::Imply(Box::new(lhs), Box::new(rhs)),
        sview(r) == SentenceV::Imply(Box::new(sview(lhs)), Box::new(sview(rhs))),
{
    Sentence::Imply(Box::new(lhs), Box::new(rhs))
}

/// `lhs` if and only if `rhs`.
pub fn iff(lhs: Sentence, rhs: Sentence) -> (r: Sentence)
    ensures
        r == Sentence::Iff(Box::new(lhs), Box::new(rhs)),
        sview(r) == SentenceV::Iff(Box::new(sview(lhs)), Box::new(sview(rhs))),
{
    Sentence::Iff(Box::new(lhs), Box::new(rhs))
}

/// There is a `v` for which `s` holds.
pub fn exist(v: Var, s: Sentence) -> (r: Sentence)
    ensures
        sview(r) == SentenceV::Quant(Quantifier::Existential(v), Box::new(sview(s))),
{
    Sentence::Quantified(Quantifier::Existential(v), Box::new(s))
}

/// `s` holds for every `v`.
pub fn for_all(v: Var, s: Sentence) -> (r: Sentence)
    ensures
        sview(r) == SentenceV::Quant(Quantifier::Univeral(v), Box::new(sview(s))),
{
    Sentence::Quantified(Quantifier::Univeral(v), Box::new(s))
}

/// `lhs` and `rhs` are the same object.
pub fn equal(lhs: Term, rhs: Term) -> (r: Sentence)
    ensures
        sview(r) == SentenceV::Equal(tview(lhs), tview(rhs)),
{
    Sentence::Equal(lhs, rhs)
}

impl core::ops::BitAnd for Sentence {
    type Output = Sentence;

    /// `a & b` is the conjunction of `a` and `b`.
    fn bitand(self, rhs: Sentence) -> (r: Sentence) {
        and(self, rhs)
    }
}

impl vstd::std_specs::ops::BitAndSpecImpl for Sentence {
    open spec fn obeys_bitand_spec() -> bool {
        true
    }

    open spec fn bitand_req(self, rhs: Sentence) -> bool {
        true
    }

    open spec fn bitand_spec(self, rhs: Sentence) -> Sentence {
        Sentence::And(Box::new(self), Box::new(rhs))
    }
}

impl core::ops::BitOr for Sentence {
    type Output = Sentence;

    /// `a | b` is the disjunction of `a` and `b`.
    fn bitor(self, rhs: Sentence) -> (r: Sentence) {
        or(self, rhs)
    }
}

impl vstd::std_specs::ops::BitOrSpecImpl for Sentence {
    open spec fn obeys_bitor_spec() -> bool {
        true
    }

    open spec fn bitor_req(self, rhs: Sentence) -> bool {
        true
    }

    open spec fn bitor_spec(self, rhs: Sentence) -> Sentence {
        Sentence::Or(Box::new(self), Box::new(rhs))
    }
}

impl core::ops::Shr for Sentence {
    type Output = Sentence;

    /// `a >> b` is `a` implies `b`.
    fn shr(self, rhs: Sentence) -> (r: Sentence) {
        imply(self, rhs)
    }
}

impl vstd::std_specs::ops::ShrSpecImpl for Sentence {
    open spec fn obeys_shr_spec() -> bool {
        true
    }

    open spec fn shr_req(self, rhs: Sentence) -> bool {
        true
    }

    open spec fn shr_spec(self, rhs: Sentence) -> Sentence {
        Sentence::Imply(Box::new(self), Box::new(rhs))
    }
}

impl core::ops::Not for Sentence {
    type Output = Sentence;

    /// `!a` is the negation of `a`.
    fn not(self) -> (r: Sentence) {
        not(self)
    }
}

impl vstd::std_specs::ops::NotSpecImpl for Sentence {
    open spec fn obeys_not_spec() -> bool {
        true
    }

    open spec fn not_req(self) -> bool {
        true
    }

    open spec fn not_spec(self) -> Sentence {
        Sentence::Not(Box::new(self))
    }
}

} // verus!
