use vstd::prelude::*;
use super::expr::Expr;

verus! {

/// A sentence over a known number of symbols.
pub struct Sentence {
    expr: Expr,
    vars: usize,
}

impl Sentence {
    /// The expression of the sentence.
    pub closed spec fn expr_spec(&self) -> Expr {
        self.expr
    }

    /// The number of symbols a full model assigns.
    pub closed spec fn vars_spec(&self) -> usize {
        self.vars
    }

    /// The sentence `expr` over `vars` symbols.
    pub fn new(expr: Expr, vars: usize) -> (r: Self)
        ensures
            r.expr_spec() == expr,
            r.vars_spec() == vars,
    {
        Sentence { expr, vars }
    }

    /// The sentence's value under a partial model.
    pub fn partial_truth(&self, model: &[bool]) -> (r: Option<bool>)
        ensures
            r == self.expr_spec().value(model@),
    {
        self.expr.partial_truth(model)
    }

    /// The sentence's value under a model of all its symbols.
    pub fn truth(&self, model: &[bool]) -> (r: bool)
        requires
            model@.len() >= self.vars_spec(),
            self.expr_spec().value(model@) is Some,
        ensures
            Some(r) == self.expr_spec().value(model@),
    {
        match self.partial_truth(model) {
            Some(t) => t,
            None => false,
        }
    }

    /// Whether the sentence is true in every model.
    pub fn is_taotology(&self) -> (r: bool)
        ensures
            r == self.expr_spec().is_valid(),
    {
        self.expr.is_taotology()
    }
}

} // verus!
