use vstd::prelude::*;
use crate::strings::{push_char, push_str};

verus! {

/// A variable: a lower-case letter.
pub type Var = char;

/// A term: a constant, a variable, or a function applied to terms.
#[derive(Debug, PartialEq)]
pub enum Term {
    Constant(String),
    Variable(Var),
    Function(String, Vec<Term>),
}

/// A term as a mathematical value.
pub enum TermV {
    Cst(Seq<char>),
    Var(char),
    Fun(Seq<char>, Seq<TermV>),
}

/// The value of a term.
pub open spec fn tview(t: Term) -> TermV
    decreases t, 0nat,
{
    match t {
        Term::Constant(c) => TermV::Cst(c@),
        Term::Variable(v) => TermV::Var(v),
        Term::Function(n, args) => {
            proof {
                assert(decreases_to!(args => args@));
            }
            TermV::Fun(n@, tviews(args@, args@.len()))
        },
    }
}

/// The values of the first `n` terms of `s`.
pub open spec fn tviews(s: Seq<Term>, n: nat) -> Seq<TermV>
    decreases s, n,
{
    if n == 0 || n > s.len() {
        Seq::empty()
    } else {
        tviews(s, (n - 1) as nat).push(tview(s[n - 1]))
    }
}

pub proof fn lemma_tviews(s: Seq<Term>, n: nat)
    requires
        n <= s.len(),
    ensures
        tviews(s, n).len() == n,
        forall|i: int| 0 <= i < n ==> #[trigger] tviews(s, n)[i] == tview(s[i]),
    decreases n,
{
    if n > 0 {
        lemma_tviews(s, (n - 1) as nat);
    }
}

/// A substitution: the term each bound variable stands for.
pub type Subst = Map<char, TermV>;

/// The term with each variable bound by `sub` replaced, once, by its term.
pub open spec fn apply(t: TermV, sub: Subst) -> TermV
    decreases t, 0nat,
{
    match t {
        TermV::Cst(c) => TermV::Cst(c),
        TermV::Var(v) => if sub.dom().contains(v) { sub[v] } else { TermV::Var(v) },
        TermV::Fun(n, args) => TermV::Fun(n, apply_seq(args, sub, args.len())),
    }
}

/// `apply` on each of the first `n` terms of `s`.
pub open spec fn apply_seq(s: Seq<TermV>, sub: Subst, n: nat) -> Seq<TermV>
    decreases s, n,
{
    if n == 0 || n > s.len() {
        Seq::empty()
    } else {
        apply_seq(s, sub, (n - 1) as nat).push(apply(s[n - 1], sub))
    }
}

pub proof fn lemma_apply_seq(s: Seq<TermV>, sub: Subst, n: nat)
    requires
        n <= s.len(),
    ensures
        apply_seq(s, sub, n).len() == n,
        forall|i: int| 0 <= i < n ==> #[trigger] apply_seq(s, sub, n)[i] == apply(s[i], sub),
    decreases n,
{
    if n > 0 {
        lemma_apply_seq(s, sub, (n - 1) as nat);
    }
}

/// Whether variable `v` occurs in the term.
pub open spec fn occurs(v: char, t: TermV) -> bool
    decreases t, 0nat,
{
    match t {
        TermV::Cst(_) => false,
        TermV::Var(w) => w == v,
        TermV::Fun(_, args) => occurs_seq(v, args, args.len()),
    }
}

/// Whether `v` occurs in one of the first `n` terms of `s`.
pub open spec fn occurs_seq(v: char, s: Seq<TermV>, n: nat) -> bool
    decreases s, n,
{
    if n == 0 || n > s.len() {
        false
    } else {
        occurs_seq(v, s, (n - 1) as nat) || occurs(v, s[n - 1])
    }
}

pub proof fn lemma_occurs_seq(v: char, s: Seq<TermV>, n: nat)
    requires
        n <= s.len(),
    ensures
        occurs_seq(v, s, n) == exists|i: int| 0 <= i < n && #[trigger] occurs(v, s[i]),
    decreases n,
{
    if n > 0 {
        lemma_occurs_seq(v, s, (n - 1) as nat);
        if occurs(v, s[n - 1]) {
            assert(exists|i: int| 0 <= i < n && #[trigger] occurs(v, s[i]));
        }
        if exists|i: int| 0 <= i < n && #[trigger] occurs(v, s[i]) {
            let i = choose|i: int| 0 <= i < n && #[trigger] occurs(v, s[i]);
            if i < n - 1 {
                assert(exists|j: int| 0 <= j < n - 1 && #[trigger] occurs(v, s[j]));
            }
        }
    }
}

/// The number of symbols of the term.
pub open spec fn size(t: TermV) -> nat
    decreases t, 0nat,
{
    match t {
        TermV::Cst(_) => 1,
        TermV::Var(_) => 1,
        TermV::Fun(_, args) => 1 + size_seq(args, args.len()),
    }
}

/// The number of symbols of the first `n` terms of `s`.
pub open spec fn size_seq(s: Seq<TermV>, n: nat) -> nat
    decreases s, n,
{
    if n == 0 || n > s.len() {
        0
    } else {
        size_seq(s, (n - 1) as nat) + size(s[n - 1])
    }
}

pub proof fn lemma_size_seq(s: Seq<TermV>, n: nat, i: int)
    requires
        n <= s.len(),
        0 <= i < n,
    ensures
        size(s[i]) <= size_seq(s, n),
    decreases n,
{
    if i < n - 1 {
        lemma_size_seq(s, (n - 1) as nat, i);
    }
}

pub proof fn lemma_size_positive(t: TermV)
    ensures
        size(t) >= 1,
{
}

/// None of the variables of `t` is bound by `sub`.
pub open spec fn free_of(t: TermV, sub: Subst) -> bool {
    forall|v: char| #[trigger] occurs(v, t) ==> !sub.dom().contains(v)
}

/// Applying a substitution to a term without bound variables leaves it as
/// it is.
pub proof fn lemma_apply_free(t: TermV, sub: Subst)
    requires
        free_of(t, sub),
    ensures
        apply(t, sub) == t,
    decreases t,
{
    match t {
        TermV::Fun(n, args) => {
            lemma_apply_seq(args, sub, args.len());
            lemma_occurs_seq_all(args);
            assert forall|i: int| 0 <= i < args.len() implies #[trigger] apply(args[i], sub) == args[i] by {
                assert forall|v: char| #[trigger] occurs(v, args[i]) implies !sub.dom().contains(v) by {
                    lemma_occurs_seq(v, args, args.len());
                    assert(occurs(v, t));
                }
                lemma_apply_free(args[i], sub);
            }
            assert(apply_seq(args, sub, args.len()) =~= args);
            assert(apply_seq(args, sub, args.len()) == args);
            assert(apply(t, sub) == TermV::Fun(n, apply_seq(args, sub, args.len())));
            assert(apply(t, sub) == TermV::Fun(n, args));
        },
        TermV::Var(v) => {
            assert(occurs(v, t));
        },
        TermV::Cst(_) => {},
    }
}

/// A variable occurs in a function term exactly when it occurs in one of its
/// arguments.
pub proof fn lemma_occurs_seq_all(args: Seq<TermV>)
    ensures
        forall|v: char| #[trigger] occurs_seq(v, args, args.len()) == exists|i: int| 0 <= i < args.len() && #[trigger] occurs(v, args[i]),
{
    assert forall|v: char| #[trigger] occurs_seq(v, args, args.len()) == exists|i: int| 0 <= i < args.len() && #[trigger] occurs(v, args[i]) by {
        lemma_occurs_seq(v, args, args.len());
    }
}

/// The variables of `apply(t, sub)`: those of `t` not bound by `sub`, and
/// those of the terms bound to the variables of `t`.
pub proof fn lemma_occurs_apply(v: char, t: TermV, sub: Subst)
    ensures
        occurs(v, apply(t, sub)) == exists|u: char| #[trigger] occurs(u, t) && if sub.dom().contains(u) {
            occurs(v, sub[u])
        } else {
            u == v
        },
    decreases t,
{
    match t {
        TermV::Cst(_) => {},
        TermV::Var(w) => {
            if sub.dom().contains(w) {
                assert(occurs(w, t));
            } else if w == v {
                assert(occurs(w, t));
            }
        },
        TermV::Fun(n, args) => {
            let aargs = apply_seq(args, sub, args.len());
            lemma_apply_seq(args, sub, args.len());
            lemma_occurs_seq(v, aargs, aargs.len());
            if occurs(v, apply(t, sub)) {
                let i = choose|i: int| 0 <= i < aargs.len() && #[trigger] occurs(v, aargs[i]);
                lemma_occurs_apply(v, args[i], sub);
                let u = choose|u: char| #[trigger] occurs(u, args[i]) && if sub.dom().contains(u) {
                    occurs(v, sub[u])
                } else {
                    u == v
                };
                lemma_occurs_seq(u, args, args.len());
                assert(occurs(u, t));
            }
            if exists|u: char| #[trigger] occurs(u, t) && if sub.dom().contains(u) {
                occurs(v, sub[u])
            } else {
                u == v
            } {
                let u = choose|u: char| #[trigger] occurs(u, t) && if sub.dom().contains(u) {
                    occurs(v, sub[u])
                } else {
                    u == v
                };
                lemma_occurs_seq(u, args, args.len());
                let i = choose|i: int| 0 <= i < args.len() && #[trigger] occurs(u, args[i]);
                lemma_occurs_apply(v, args[i], sub);
                assert(occurs(v, aargs[i]));
            }
        },
    }
}


/// The variables of a term.
pub open spec fn var_set(t: TermV) -> Set<char>
    decreases t, 0nat,
{
    match t {
        TermV::Cst(_) => Set::empty(),
        TermV::Var(v) => set![v],
        TermV::Fun(_, args) => var_set_seq(args, args.len()),
    }
}

/// The variables of the first `n` terms of `s`.
pub open spec fn var_set_seq(s: Seq<TermV>, n: nat) -> Set<char>
    decreases s, n,
{
    if n == 0 || n > s.len() {
        Set::empty()
    } else {
        var_set_seq(s, (n - 1) as nat).union(var_set(s[n - 1]))
    }
}

/// The variables of a term are finitely many, and they are those that occur
/// in it.
pub proof fn lemma_var_set(t: TermV)
    ensures
        var_set(t).finite(),
        forall|v: char| #[trigger] var_set(t).contains(v) == occurs(v, t),
    decreases t, 0nat,
{
    match t {
        TermV::Fun(_, args) => {
            lemma_var_set_seq(args, args.len());
        },
        _ => {},
    }
}

pub proof fn lemma_var_set_seq(s: Seq<TermV>, n: nat)
    requires
        n <= s.len(),
    ensures
        var_set_seq(s, n).finite(),
        forall|v: char| #[trigger] var_set_seq(s, n).contains(v) == occurs_seq(v, s, n),
    decreases s, n,
{
    if n > 0 {
        lemma_var_set_seq(s, (n - 1) as nat);
        lemma_var_set(s[n - 1]);
    }
}

/// Each term bound by `sub` is free of the variables `sub` binds.
pub open spec fn idempotent(sub: Subst) -> bool {
    forall|w: char| #[trigger] sub.dom().contains(w) ==> free_of(sub[w], sub)
}

/// Applying `s1` and then `s2` is the same as applying `s2`.
pub open spec fn absorbs(s2: Subst, s1: Subst) -> bool {
    forall|t: TermV| #[trigger] apply(apply(t, s1), s2) == apply(t, s2)
}

/// The substitution of `t` for `v` alone.
pub open spec fn single(v: char, t: TermV) -> Subst {
    Map::empty().insert(v, t)
}

/// `sub` with `v` bound to `t`, and `t` put for `v` in the terms bound
/// before.
pub open spec fn bind(sub: Subst, v: char, t: TermV) -> Subst {
    Map::new(|w: char| sub.dom().contains(w) || w == v, |w: char| if w == v { t } else { apply(sub[w], single(v, t)) })
}

/// Substitutions that agree on the variables of a term give it the same
/// image.
pub proof fn lemma_apply_agree(r: TermV, s1: Subst, s2: Subst)
    requires
        forall|v: char| #[trigger] occurs(v, r) ==> (s1.dom().contains(v) == s2.dom().contains(v)
            && (s1.dom().contains(v) ==> s1[v] == s2[v])),
    ensures
        apply(r, s1) == apply(r, s2),
    decreases r,
{
    match r {
        TermV::Var(v) => {
            assert(occurs(v, r));
        },
        TermV::Fun(n, args) => {
            lemma_apply_seq(args, s1, args.len());
            lemma_apply_seq(args, s2, args.len());
            assert forall|i: int| 0 <= i < args.len() implies #[trigger] apply(args[i], s1) == apply(args[i], s2) by {
                assert forall|v: char| #[trigger] occurs(v, args[i]) implies (s1.dom().contains(v) == s2.dom().contains(v)
                    && (s1.dom().contains(v) ==> s1[v] == s2[v])) by {
                    lemma_occurs_seq(v, args, args.len());
                    assert(occurs(v, r));
                }
                lemma_apply_agree(args[i], s1, s2);
            }
            assert(apply_seq(args, s1, args.len()) =~= apply_seq(args, s2, args.len()));
        },
        TermV::Cst(_) => {},
    }
}

/// Binding `v` to `t` after `sub` absorbs `sub`.
pub proof fn lemma_bind_absorbs(sub: Subst, v: char, t: TermV, s: TermV)
    requires
        idempotent(sub),
        !sub.dom().contains(v),
        free_of(t, sub),
        !occurs(v, t),
    ensures
        apply(apply(s, sub), bind(sub, v, t)) == apply(s, bind(sub, v, t)),
    decreases s,
{
    let b = bind(sub, v, t);
    match s {
        TermV::Var(u) => {
            if sub.dom().contains(u) {
                let r = sub[u];
                assert(free_of(r, sub));
                assert forall|w: char| #[trigger] occurs(w, r) implies (b.dom().contains(w) == single(v, t).dom().contains(w)
                    && (b.dom().contains(w) ==> b[w] == single(v, t)[w])) by {
                    assert(!sub.dom().contains(w));
                }
                lemma_apply_agree(r, b, single(v, t));
            }
        },
        TermV::Fun(n, args) => {
            let a1 = apply_seq(args, sub, args.len());
            lemma_apply_seq(args, sub, args.len());
            lemma_apply_seq(a1, b, a1.len());
            lemma_apply_seq(args, b, args.len());
            assert forall|i: int| 0 <= i < args.len() implies #[trigger] apply(a1[i], b) == apply(args[i], b) by {
                lemma_bind_absorbs(sub, v, t, args[i]);
            }
            assert(apply_seq(a1, b, a1.len()) =~= apply_seq(args, b, args.len()));
        },
        TermV::Cst(_) => {},
    }
}

/// Binding `v` to `t` keeps a substitution idempotent.
pub proof fn lemma_bind_idempotent(sub: Subst, v: char, t: TermV)
    requires
        idempotent(sub),
        !sub.dom().contains(v),
        free_of(t, sub),
        !occurs(v, t),
    ensures
        idempotent(bind(sub, v, t)),
{
    let b = bind(sub, v, t);
    assert forall|w: char| #[trigger] b.dom().contains(w) implies free_of(b[w], b) by {
        if w == v {
            assert forall|u: char| #[trigger] occurs(u, b[w]) implies !b.dom().contains(u) by {}
        } else {
            assert(free_of(sub[w], sub));
            assert forall|u: char| #[trigger] occurs(u, b[w]) implies !b.dom().contains(u) by {
                lemma_occurs_apply(u, sub[w], single(v, t));
                let u2 = choose|u2: char| #[trigger] occurs(u2, sub[w]) && if single(v, t).dom().contains(u2) {
                    occurs(u, single(v, t)[u2])
                } else {
                    u2 == u
                };
                assert(!sub.dom().contains(u2));
            }
        }
    }
}

/// Absorption is transitive.
pub proof fn lemma_absorbs_trans(s3: Subst, s2: Subst, s1: Subst)
    requires
        absorbs(s3, s2),
        absorbs(s2, s1),
    ensures
        absorbs(s3, s1),
{
    assert forall|t: TermV| #[trigger] apply(apply(t, s1), s3) == apply(t, s3) by {
        assert(apply(apply(apply(t, s1), s2), s3) == apply(apply(t, s1), s3));
        assert(apply(apply(t, s1), s2) == apply(t, s2));
        assert(apply(apply(t, s2), s3) == apply(t, s3));
    }
}

/// A substitution absorbs itself when it is idempotent.
pub proof fn lemma_absorbs_self(sub: Subst)
    requires
        idempotent(sub),
    ensures
        absorbs(sub, sub),
{
    assert forall|t: TermV| #[trigger] apply(apply(t, sub), sub) == apply(t, sub) by {
        lemma_apply_resolved(t, sub);
        lemma_apply_free(apply(t, sub), sub);
    }
}

/// After an idempotent substitution, no bound variable is left.
pub proof fn lemma_apply_resolved(t: TermV, sub: Subst)
    requires
        idempotent(sub),
    ensures
        free_of(apply(t, sub), sub),
{
    assert forall|u: char| #[trigger] occurs(u, apply(t, sub)) implies !sub.dom().contains(u) by {
        lemma_occurs_apply(u, t, sub);
        let u2 = choose|u2: char| #[trigger] occurs(u2, t) && if sub.dom().contains(u2) {
            occurs(u, sub[u2])
        } else {
            u2 == u
        };
        if sub.dom().contains(u2) {
            assert(free_of(sub[u2], sub));
        }
    }
}

impl Term {
    /// A copy of the term.
    #[verifier::loop_isolation(false)]
    pub fn copy(&self) -> (r: Term)
        ensures
            tview(r) == tview(*self),
        decreases self,
    {
        match self {
            Term::Constant(c) => Term::Constant(c.clone()),
            Term::Variable(v) => Term::Variable(*v),
            Term::Function(n, args) => {
                let mut out: Vec<Term> = Vec::new();
                let mut i: usize = 0;
                while i < args.len()
                    invariant
                        i <= args@.len(),
                        out@.len() == i,
                        forall|k: int| 0 <= k < i ==> #[trigger] tview(out@[k]) == tview(args@[k]),
                    decreases args.len() - i,
                {
                    proof {
                        lemma_decreases_arg(*self, i as int);
                    }
                    out.push(args[i].copy());
                    i += 1;
                }
                proof {
                    lemma_tviews(out@, out@.len());
                    lemma_tviews(args@, args@.len());
                    assert(tviews(out@, out@.len()) =~= tviews(args@, args@.len()));
                }
                Term::Function(n.clone(), out)
            },
        }
    }

    /// Whether variable `var` occurs in the term.
    #[verifier::loop_isolation(false)]
    pub fn occur_check(&self, var: Var) -> (r: bool)
        ensures
            r == occurs(var, tview(*self)),
        decreases self,
    {
        match self {
            Term::Variable(v) => *v == var,
            Term::Constant(_) => false,
            Term::Function(_, args) => {
                proof {
                    lemma_tviews(args@, args@.len());
                    lemma_occurs_seq(var, tviews(args@, args@.len()), args@.len());
                }
                let mut i: usize = 0;
                while i < args.len()
                    invariant
                        i <= args@.len(),
                        forall|k: int| 0 <= k < i ==> !occurs(var, #[trigger] tview(args@[k])),
                    decreases args.len() - i,
                {
                    proof {
                        lemma_decreases_arg(*self, i as int);
                    }
                    if args[i].occur_check(var) {
                        proof {
                            lemma_tviews(args@, args@.len());
                            let tv = tviews(args@, args@.len());
                            assert(occurs(var, tv[i as int]));
                        }
                        return true;
                    }
                    i += 1;
                }
                proof {
                    let tv = tviews(args@, args@.len());
                    assert(!exists|k: int| 0 <= k < tv.len() && #[trigger] occurs(var, tv[k])) by {
                        assert forall|k: int| 0 <= k < tv.len() implies !#[trigger] occurs(var, tv[k]) by {
                            assert(tv[k] == tview(args@[k]));
                        }
                    }
                }
                false
            },
        }
    }
}

/// Whether the two terms are the same.
#[verifier::loop_isolation(false)]
pub fn term_eq(a: &Term, b: &Term) -> (r: bool)
    ensures
        r == (tview(*a) == tview(*b)),
    decreases a,
{
    match a {
        Term::Constant(c0) => match b {
            Term::Constant(c1) => *c0 == *c1,
            _ => false,
        },
        Term::Variable(v0) => match b {
            Term::Variable(v1) => *v0 == *v1,
            _ => false,
        },
        Term::Function(n0, args0) => match b {
            Term::Function(n1, args1) => {
                proof {
                    lemma_tviews(args0@, args0@.len());
                    lemma_tviews(args1@, args1@.len());
                }
                let same_name = *n0 == *n1;
                if !same_name || args0.len() != args1.len() {
                    proof {
                        if args0.len() != args1.len() {
                            assert(tviews(args0@, args0@.len()).len() != tviews(args1@, args1@.len()).len());
                        }
                    }
                    return false;
                }
                let mut i: usize = 0;
                while i < args0.len()
                    invariant
                        i <= args0@.len(),
                        args0@.len() == args1@.len(),
                        forall|k: int| 0 <= k < i ==> #[trigger] tview(args0@[k]) == tview(args1@[k]),
                    decreases args0.len() - i,
                {
                    proof {
                        lemma_decreases_arg(*a, i as int);
                    }
                    if !term_eq(&args0[i], &args1[i]) {
                        proof {
                            lemma_tviews(args0@, args0@.len());
                            lemma_tviews(args1@, args1@.len());
                            let t0 = tviews(args0@, args0@.len());
                            let t1 = tviews(args1@, args1@.len());
                            assert(t0[i as int] != t1[i as int]);
                        }
                        return false;
                    }
                    i += 1;
                }
                proof {
                    lemma_tviews(args0@, args0@.len());
                    lemma_tviews(args1@, args1@.len());
                    assert(tviews(args0@, args0@.len()) =~= tviews(args1@, args1@.len()));
                }
                true
            },
            _ => false,
        },
    }
}

/// An argument of a function term is smaller than the term.
pub proof fn lemma_decreases_arg(t: Term, i: int)
    requires
        t is Function,
        0 <= i < t->Function_1@.len(),
    ensures
        decreases_to!(t => t->Function_1@[i]),
{
    let args = t->Function_1;
    assert(decreases_to!(t => args));
    assert(decreases_to!(args => args@));
    assert(decreases_to!(args@ => args@[i]));
}

/// How a term is written: a constant or variable by its name, a function
/// by its name and its arguments in brackets, separated by ", ".
pub open spec fn term_text(t: TermV) -> Seq<char>
    decreases t, 0nat,
{
    match t {
        TermV::Cst(c) => c,
        TermV::Var(v) => seq![v],
        TermV::Fun(n, args) => n + seq!['('] + args_text(args, args.len()) + seq![')'],
    }
}

/// The first `n` terms of `s`, written one after another with ", " between.
pub open spec fn args_text(s: Seq<TermV>, n: nat) -> Seq<char>
    decreases s, n,
{
    if n == 0 || n > s.len() {
        Seq::empty()
    } else if n == 1 {
        term_text(s[0])
    } else {
        args_text(s, (n - 1) as nat) + seq![',', ' '] + term_text(s[n - 1])
    }
}

/// Appends the text of the terms `args`, separated by ", ", to `out`.
pub(crate) fn write_args(args: &Vec<Term>, out: &mut String)
    ensures
        final(out)@ == old(out)@ + args_text(tviews(args@, args@.len()), args@.len()),
    decreases args@, 1nat,
{
    let ghost start = out@;
    let ghost tv = tviews(args@, args@.len());
    proof {
        lemma_tviews(args@, args@.len());
    }
    let mut i: usize = 0;
    while i < args.len()
        invariant
            i <= args@.len(),
            tv == tviews(args@, args@.len()),
            tv.len() == args@.len(),
            forall|k: int| 0 <= k < args@.len() ==> #[trigger] tv[k] == tview(args@[k]),
            out@ == start + args_text(tv, i as nat),
        decreases args.len() - i,
    {
        if i > 0 {
            push_char(out, ',');
            push_char(out, ' ');
        }
        let ghost before = out@;
        args[i].write_text(out);
        proof {
            assert(tv[i as int] == tview(args@[i as int]));
            if i == 0 {
                assert(args_text(tv, 1) == term_text(tv[0]));
            } else {
                assert(args_text(tv, (i + 1) as nat) == args_text(tv, i as nat) + seq![',', ' '] + term_text(tv[i as int]));
            }
            assert(out@ =~= start + args_text(tv, (i + 1) as nat));
        }
        i += 1;
    }
}

impl Term {
    /// Appends the text of the term to `out`.
    pub(crate) fn write_text(&self, out: &mut String)
        ensures
            final(out)@ == old(out)@ + term_text(tview(*self)),
        decreases self, 0nat,
    {
        match self {
            Term::Constant(c) => push_str(out, c.as_str()),
            Term::Variable(v) => {
                push_char(out, *v);
                assert(out@ =~= old(out)@ + seq![*v]);
            },
            Term::Function(n, args) => {
                let ghost start = out@;
                push_str(out, n.as_str());
                push_char(out, '(');
                write_args(args, out);
                push_char(out, ')');
                proof {
                    lemma_tviews(args@, args@.len());
                    let tv = tviews(args@, args@.len());
                    assert(tview(*self) == TermV::Fun(n@, tv));
                    assert(term_text(tview(*self)) == n@ + seq!['('] + args_text(tv, tv.len()) + seq![')']);
                }
                assert(out@ =~= start + term_text(tview(*self)));
            },
        }
    }

    /// How the term is written, as in `Polymer(Kydd, Smith)`.
    pub fn to_text(&self) -> (r: String)
        ensures
            r@ == term_text(tview(*self)),
    {
        let mut out = String::new();
        self.write_text(&mut out);
        assert(out@ =~= term_text(tview(*self)));
        out
    }
}

} // verus!
