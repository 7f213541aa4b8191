use aima::propositional::build::{and, f, iff, imply, not, or, t, var};
use aima::propositional::cnf::{CNFClause, Literal, ToCNF, CNF};
use aima::propositional::expr::Expr;

fn laws() -> Vec<Expr> {
    vec![
        iff(and(var(0), var(1)), and(var(1), var(0))),
        iff(or(var(0), var(1)), or(var(1), var(0))),
        iff(
            and(and(var(0), var(1)), var(2)),
            and(var(0), and(var(1), var(2))),
        ),
        iff(
            or(or(var(0), var(1)), var(2)),
            or(var(0), or(var(1), var(2))),
        ),
        iff(imply(var(0), var(1)), imply(not(var(1)), not(var(0)))),
        iff(imply(var(0), var(1)), or(not(var(0)), var(1))),
        iff(
            iff(var(0), var(1)),
            and(imply(var(0), var(1)), imply(var(1), var(0))),
        ),
        iff(not(and(var(0), var(1))), or(not(var(0)), not(var(1)))),
        iff(not(or(var(0), var(1))), and(not(var(0)), not(var(1)))),
        iff(
            and(var(0), or(var(1), var(2))),
            or(and(var(0), var(1)), and(var(0), var(2))),
        ),
        iff(
            or(var(0), and(var(1), var(2))),
            and(or(var(0), var(1)), or(var(0), var(2))),
        ),
    ]
}

#[test]
fn nnf_test() {
    for (i, expr) in laws().into_iter().enumerate() {
        assert!(
            expr.equivalent(&expr.to_nnf_expr()),
            "{}th expr is not equivalent to its NNF",
            i + 1
        );
    }
}

#[test]
fn cnf_test() {
    for (i, expr) in laws().into_iter().enumerate() {
        assert!(
            expr.equivalent(&expr.to_cnf().to_expr()),
            "{}th expr is not equivalent to its CNF",
            i + 1
        );
    }
}

#[test]
fn dpll_test() {
    for (i, expr) in laws().into_iter().enumerate() {
        let cnf = not(expr).to_cnf();
        assert!(
            !cnf.satisfiable(),
            "{}th expr is not equivalent to its CNF",
            i + 1
        );
    }
}

#[test]
fn partial_truth_three_valued() {
    let e = and(var(0), var(2));
    assert_eq!(e.partial_truth(&[true]), None);
    assert_eq!(e.partial_truth(&[false]), Some(false));
    assert_eq!(e.partial_truth(&[true, false, true]), Some(true));
    assert_eq!(or(var(5), t()).partial_truth(&[]), Some(true));
    assert_eq!(imply(f(), var(3)).partial_truth(&[]), Some(true));
    assert_eq!(iff(var(0), var(1)).partial_truth(&[true, false]), Some(false));
    assert_eq!(not(var(0)).partial_truth(&[false]), Some(true));
}

#[test]
fn tautology_examples() {
    assert!(or(var(0), not(var(0))).is_taotology());
    assert!(!or(var(0), var(1)).is_taotology());
    assert!(t().is_taotology());
    assert!(!f().is_taotology());
    assert!(imply(and(var(0), var(1)), var(0)).is_taotology());
}

#[test]
fn equivalence_examples() {
    assert!(var(0).equivalent(&not(not(var(0)))));
    assert!(!var(0).equivalent(&var(1)));
    assert!(imply(var(0), var(1)).equivalent(&or(not(var(0)), var(1))));
}

#[test]
fn satisfiable_examples() {
    assert!(and(var(0), not(var(1))).to_cnf().satisfiable());
    assert!(!and(var(0), not(var(0))).to_cnf().satisfiable());
    assert!(t().to_cnf().satisfiable());
    assert!(!f().to_cnf().satisfiable());
    // needs a split: neither pure symbols nor unit clauses at the start
    let e = and(
        and(or(var(0), var(1)), or(not(var(0)), not(var(1)))),
        and(or(var(0), not(var(1))), or(not(var(0)), var(1))),
    );
    assert!(!e.to_cnf().satisfiable());
    let g = and(or(var(0), var(1)), or(not(var(0)), not(var(1))));
    assert!(g.to_cnf().satisfiable());
}

#[test]
fn clause_operations() {
    let c = CNFClause::new(vec![Literal::Pos(2), Literal::Neg(1), Literal::Pos(2)]);
    assert_eq!(c.literals(), &[Literal::Neg(1), Literal::Pos(2)]);
    assert!(!c.is_empty());
    assert!(CNFClause::new_empty().is_empty());
    let d = CNFClause::new_pos(0).join(&CNFClause::new_neg(1));
    assert_eq!(d.literals(), &[Literal::Neg(1), Literal::Pos(0)]);
    let e = CNFClause::new_pos(0).join(&CNFClause::new_empty());
    assert_eq!(e.literals(), &[Literal::Pos(0)]);
    let cnf = CNF::new(vec![CNFClause::new_pos(0), CNFClause::new_pos(0), CNFClause::new_neg(3)]);
    assert_eq!(cnf.clauses().len(), 2);
    assert!(cnf.satisfiable());
    assert!(cnf.to_expr().equivalent(&and(not(var(3)), var(0))));
}

#[test]
fn expr_text_brackets_by_binding() {
    let e = imply(and(var(0), var(1)), not(var(2)));
    assert_eq!(e.to_text(), "A & B => ~C");
    let e = and(or(var(0), var(1)), var(2));
    assert_eq!(e.to_text(), "(A | B) & C");
    let e = not(and(t(), f()));
    assert_eq!(e.to_text(), "~(True & False)");
    let e = iff(var(25), imply(var(0), var(1)));
    assert_eq!(e.to_text(), "Z <=> (A => B)");
}

#[test]
fn exactly_one_of_two_is_satisfiable() {
    let e = and(or(var(0), var(1)), or(not(var(0)), not(var(1))));
    assert!(e.to_cnf().satisfiable());
}
