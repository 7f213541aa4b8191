use aima::first_order::build::{and, cst, equal, exist, for_all, func, imply, not, or, pred, var};
use aima::first_order::term::Term;
use aima::first_order::unify::{unify, unify_term, Unifier};

#[test]
fn format_test() {
    let s = for_all(
        'x',
        (pred("King", vec![var('x')]) & pred("Greedy", vec![var('x')])) >> pred("Evil", vec![var('x')]),
    );
    assert_eq!(s.to_text(), "∀x King(x) & Greedy(x) => Evil(x)");

    let s = exist(
        'x',
        pred("Parent", vec![var('x'), cst("John")])
            & equal(var('x'), func("Polymer", vec![cst("Kydd"), cst("Smith")])),
    );

    assert_eq!(s.to_text(), "∃x Parent(x, John) & x = Polymer(Kydd, Smith)");
}

#[test]
fn sentence_unify_test() {
    let s0 = pred("Knows", vec![cst("John"), var('x')]);
    let s1 = pred("Knows", vec![var('y'), cst("Elizabeth")]);

    let unifier = unify(&s0, &s1).expect("unify_test: None returned");

    assert_eq!(s0.subst(&unifier), s1.subst(&unifier));
}

#[test]
fn term_unify_test() {
    for (s0, s1) in &[
        ("P(A,B,B)", "P(x,y,z)"),
        ("Q(y,G(A,B))", "Q(G(x,x),y)"),
        ("Older(Father(y),y)", "Older(Father(x),John)"),
        ("Knows(Father(y),y)", "Knows(x,x)"),
    ] {
        let t0 = Term::parse(s0);
        let t1 = Term::parse(s1);
        let unifier = unify_term(&t0, &t1, Unifier::new());
        if let Some(unifier) = unifier {
            assert_eq!(t0.subst(&unifier), t1.subst(&unifier));
        }
    }
}

#[test]
fn term_unify_outcomes() {
    let unified = |a: &str, b: &str| unify_term(&Term::parse(a), &Term::parse(b), Unifier::new()).is_some();
    assert!(unified("P(A,B,B)", "P(x,y,z)"));
    assert!(unified("Q(y,G(A,B))", "Q(G(x,x),y)") == false);
    assert!(unified("Older(Father(y),y)", "Older(Father(x),John)"));
    // occurs check: x cannot stand for a term that holds x
    assert!(unified("Knows(Father(y),y)", "Knows(x,x)") == false);
    assert!(unified("x", "F(x)") == false);
    assert!(unified("P(A)", "P(A,B)") == false);
    assert!(unified("P(A)", "Q(A)") == false);
}

#[test]
fn unifier_binds_each_variable() {
    let t0 = Term::parse("P(A,B,B)");
    let t1 = Term::parse("P(x,y,z)");
    let unifier = unify_term(&t0, &t1, Unifier::new()).unwrap();
    assert_eq!(unifier.len(), 3);
    assert_eq!(unifier.get('x'), Some(&cst("A")));
    assert_eq!(unifier.get('y'), Some(&cst("B")));
    assert_eq!(unifier.get('z'), Some(&cst("B")));
    assert_eq!(unifier.get('w'), None);
    assert_eq!(t1.subst(&unifier).to_text(), "P(A, B, B)");
}

#[test]
fn chained_bindings_are_resolved() {
    // x gets F(y) and then y gets C: the unifier keeps x bound to F(C)
    let t0 = Term::parse("P(x,y)");
    let t1 = Term::parse("P(F(y),C)");
    let unifier = unify_term(&t0, &t1, Unifier::new()).unwrap();
    assert_eq!(unifier.get('x').unwrap().to_text(), "F(C)");
    assert_eq!(t0.subst(&unifier).to_text(), "P(F(C), C)");
}

#[test]
fn parse_reads_terms() {
    assert_eq!(Term::parse("x"), var('x'));
    assert_eq!(Term::parse("John"), cst("John"));
    assert_eq!(
        Term::parse("Knows(Father(y),y)"),
        func("Knows", vec![func("Father", vec![var('y')]), var('y')])
    );
    // a run of small letters is the variable of its first letter
    assert_eq!(Term::parse("xyz"), var('x'));
    assert_eq!(Term::parse("Older(Father(x),John)").to_text(), "Older(Father(x), John)");
}

#[test]
fn sentence_text_brackets() {
    let s = not(and(pred("P", vec![var('x')]), pred("Q", vec![var('x')])));
    assert_eq!(s.to_text(), "~(P(x) & Q(x))");
    let s = or(imply(pred("P", vec![]), pred("Q", vec![])), pred("R", vec![]));
    assert_eq!(s.to_text(), "(P() => Q()) | R()");
    let s = !pred("P", vec![cst("A")]) | pred("Q", vec![]);
    assert_eq!(s.to_text(), "~P(A) | Q()");
}

#[test]
fn sentence_unify_connectives() {
    let s0 = and(pred("P", vec![var('x')]), equal(var('y'), cst("B")));
    let s1 = and(pred("P", vec![cst("A")]), equal(cst("C"), var('z')));
    let unifier = unify(&s0, &s1).unwrap();
    assert_eq!(s0.subst(&unifier), s1.subst(&unifier));
    assert_eq!(s0.subst(&unifier).to_text(), "P(A) & C = B");
    let s2 = or(pred("P", vec![var('x')]), pred("Q", vec![]));
    assert!(unify(&s0, &s2).is_none());
}
