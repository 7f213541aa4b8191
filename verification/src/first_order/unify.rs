use vstd::prelude::*;
use super::term::{lemma_decreases_arg, Term, TermV, Subst, tview, tviews, lemma_tviews, apply, apply_seq, lemma_apply_seq, occurs, occurs_seq, lemma_occurs_seq, lemma_occurs_seq_all, size, size_seq, lemma_size_seq, free_of, lemma_apply_free, lemma_occurs_apply, var_set, lemma_var_set, var_set_seq, lemma_var_set_seq, idempotent, absorbs, single, bind, lemma_apply_agree, lemma_bind_absorbs, lemma_bind_idempotent, lemma_absorbs_trans, lemma_absorbs_self, lemma_apply_resolved, term_eq};
use super::sentence::{Sentence, SentenceV, sview, sapply, comparable, lemma_sapply_absorbs, sentence_eq};

verus! {

/// The substitution a list of bindings stands for; a later binding of a
/// variable hides an earlier one.
pub open spec fn entries_map(es: Seq<(char, Term)>) -> Map<char, TermV>
    decreases es.len(),
{
    if es.len() == 0 {
        Map::empty()
    } else {
        entries_map(es.drop_last()).insert(es.last().0, tview(es.last().1))
    }
}

/// No variable is bound twice.
pub open spec fn keys_distinct(es: Seq<(char, Term)>) -> bool {
    forall|i: int, j: int| 0 <= i < j < es.len() ==> (#[trigger] es[i]).0 != (#[trigger] es[j]).0
}

proof fn lemma_entries_map(es: Seq<(char, Term)>)
    requires
        keys_distinct(es),
    ensures
        forall|v: char| #[trigger] entries_map(es).dom().contains(v) == exists|k: int| 0 <= k < es.len() && (#[trigger] es[k]).0 == v,
        forall|k: int| 0 <= k < es.len() ==> #[trigger] entries_map(es)[es[k].0] == tview(es[k].1),
        entries_map(es).dom().finite(),
    decreases es.len(),
{
    if es.len() > 0 {
        let p = es.drop_last();
        assert(keys_distinct(p)) by {
            assert forall|i: int, j: int| 0 <= i < j < p.len() implies (#[trigger] p[i]).0 != (#[trigger] p[j]).0 by {
                assert(p[i] == es[i] && p[j] == es[j]);
            }
        }
        lemma_entries_map(p);
        assert forall|v: char| #[trigger] entries_map(es).dom().contains(v) == exists|k: int| 0 <= k < es.len() && (#[trigger] es[k]).0 == v by {
            if entries_map(p).dom().contains(v) {
                let k = choose|k: int| 0 <= k < p.len() && (#[trigger] p[k]).0 == v;
                assert(es[k] == p[k]);
            }
            if exists|k: int| 0 <= k < es.len() && (#[trigger] es[k]).0 == v {
                let k = choose|k: int| 0 <= k < es.len() && (#[trigger] es[k]).0 == v;
                if k < es.len() - 1 {
                    assert(p[k] == es[k]);
                }
            }
        }
        assert forall|k: int| 0 <= k < es.len() implies #[trigger] entries_map(es)[es[k].0] == tview(es[k].1) by {
            if k < es.len() - 1 {
                assert(p[k] == es[k]);
                assert(es[k].0 != es.last().0);
            }
        }
    }
}

/// A substitution kept as a list of bindings, each variable bound once, in
/// solved form: no bound variable occurs in a bound term.
pub struct Unifier {
    entries: Vec<(char, Term)>,
}

impl View for Unifier {
    type V = Map<char, TermV>;

    closed spec fn view(&self) -> Map<char, TermV> {
        entries_map(self.entries@)
    }
}

/// The variables a substitution mentions: those it binds and those of the
/// terms it binds them to.
pub open spec fn scope(sub: Subst) -> Set<char> {
    Set::new(|v: char| sub.dom().contains(v) || exists|w: char| #[trigger] sub.dom().contains(w) && occurs(v, sub[w]))
}

impl Unifier {
    #[verifier::type_invariant]
    spec fn solved(self) -> bool {
        &&& keys_distinct(self.entries@)
        &&& idempotent(entries_map(self.entries@))
    }

    /// The empty substitution.
    pub fn new() -> (r: Self)
        ensures
            r@ == Map::<char, TermV>::empty(),
    {
        let r = Unifier { entries: Vec::new() };
        assert(r@ =~= Map::<char, TermV>::empty());
        r
    }
}

/// The variables the bindings mention.
pub open spec fn entries_scope(es: Seq<(char, Term)>) -> Set<char>
    decreases es.len(),
{
    if es.len() == 0 {
        Set::empty()
    } else {
        entries_scope(es.drop_last()).insert(es.last().0).union(var_set(tview(es.last().1)))
    }
}

proof fn lemma_entries_scope(es: Seq<(char, Term)>)
    requires
        keys_distinct(es),
    ensures
        entries_scope(es).finite(),
        scope(entries_map(es)) =~= entries_scope(es),
    decreases es.len(),
{
    if es.len() > 0 {
        let p = es.drop_last();
        assert(keys_distinct(p)) by {
            assert forall|i: int, j: int| 0 <= i < j < p.len() implies (#[trigger] p[i]).0 != (#[trigger] p[j]).0 by {
                assert(p[i] == es[i] && p[j] == es[j]);
            }
        }
        lemma_entries_scope(p);
        lemma_entries_map(es);
        lemma_entries_map(p);
        lemma_var_set(tview(es.last().1));
        let m = entries_map(es);
        let mp = entries_map(p);
        assert forall|v: char| #[trigger] scope(m).contains(v) == entries_scope(es).contains(v) by {
            if scope(m).contains(v) {
                if m.dom().contains(v) {
                    let k = choose|k: int| 0 <= k < es.len() && (#[trigger] es[k]).0 == v;
                    if k < es.len() - 1 {
                        assert(p[k] == es[k]);
                        assert(mp.dom().contains(v));
                        assert(scope(mp).contains(v));
                    }
                } else {
                    let w = choose|w: char| #[trigger] m.dom().contains(w) && occurs(v, m[w]);
                    let k = choose|k: int| 0 <= k < es.len() && (#[trigger] es[k]).0 == w;
                    if k < es.len() - 1 {
                        assert(p[k] == es[k]);
                        assert(mp.dom().contains(w));
                        assert(mp[w] == tview(p[k].1));
                        assert(m[w] == tview(es[k].1));
                        assert(scope(mp).contains(v));
                    } else {
                        assert(m[w] == tview(es.last().1));
                    }
                }
            }
            if entries_scope(es).contains(v) {
                if entries_scope(p).contains(v) {
                    assert(scope(mp).contains(v));
                    if mp.dom().contains(v) {
                        let k = choose|k: int| 0 <= k < p.len() && (#[trigger] p[k]).0 == v;
                        assert(es[k] == p[k]);
                        assert(m.dom().contains(v));
                    } else {
                        let w = choose|w: char| #[trigger] mp.dom().contains(w) && occurs(v, mp[w]);
                        let k = choose|k: int| 0 <= k < p.len() && (#[trigger] p[k]).0 == w;
                        assert(es[k] == p[k]);
                        assert(m.dom().contains(w));
                        assert(m[w] == tview(es[k].1));
                    }
                } else if v == es.last().0 {
                    assert(es[es.len() - 1].0 == v);
                    assert(m.dom().contains(v));
                } else {
                    let w = es.last().0;
                    assert(es[es.len() - 1].0 == w);
                    assert(m.dom().contains(w));
                    assert(m[w] == tview(es[es.len() - 1].1));
                }
            }
        }
    } else {
        assert forall|v: char| #[trigger] scope(entries_map(es)).contains(v) == entries_scope(es).contains(v) by {}
    }
}

impl Unifier {
    /// The term bound to `var`, if any.
    #[verifier::loop_isolation(false)]
    pub fn get(&self, var: char) -> (r: Option<&Term>)
        ensures
            r is None <==> !self@.dom().contains(var),
            r matches Some(t) ==> tview(*t) == self@[var],
    {
        proof {
            use_type_invariant(self);
            lemma_entries_map(self.entries@);
        }
        let mut k: usize = 0;
        while k < self.entries.len()
            invariant
                k <= self.entries@.len(),
                forall|j: int| 0 <= j < k ==> (#[trigger] self.entries@[j]).0 != var,
            decreases self.entries.len() - k,
        {
            if self.entries[k].0 == var {
                return Some(&self.entries[k].1);
            }
            k += 1;
        }
        None
    }

    /// The number of bound variables.
    pub fn len(&self) -> (r: usize)
        ensures
            r == self@.dom().len(),
    {
        proof {
            use_type_invariant(self);
            lemma_entries_map(self.entries@);
            let ks = self.entries@.map_values(|e: (char, Term)| e.0);
            assert(ks.no_duplicates()) by {
                assert forall|i: int, j: int| 0 <= i < j < ks.len() implies ks[i] != ks[j] by {
                    assert(ks[i] == self.entries@[i].0 && ks[j] == self.entries@[j].0);
                }
            }
            ks.unique_seq_to_set();
            assert forall|v: char| #[trigger] ks.to_set().contains(v) == self@.dom().contains(v) by {
                if ks.to_set().contains(v) {
                    let k = choose|k: int| 0 <= k < ks.len() && ks[k] == v;
                    assert(self.entries@[k].0 == v);
                }
                if self@.dom().contains(v) {
                    let k = choose|k: int| 0 <= k < self.entries@.len() && (#[trigger] self.entries@[k]).0 == v;
                    assert(ks[k] == v);
                    assert(ks.contains(v));
                }
            }
            assert(ks.to_set() =~= self@.dom());
        }
        self.entries.len()
    }
}

impl Term {
    /// The term with each variable bound by `unifier` replaced by its term.
    #[verifier::loop_isolation(false)]
    pub fn subst(&self, unifier: &Unifier) -> (r: Term)
        ensures
            tview(r) == apply(tview(*self), unifier@),
        decreases self,
    {
        match self {
            Term::Variable(v) => match unifier.get(*v) {
                Some(t) => t.copy(),
                None => Term::Variable(*v),
            },
            Term::Constant(c) => Term::Constant(c.clone()),
            Term::Function(n, args) => {
                let mut out: Vec<Term> = Vec::new();
                let mut i: usize = 0;
                while i < args.len()
                    invariant
                        i <= args@.len(),
                        out@.len() == i,
                        forall|k: int| 0 <= k < i ==> #[trigger] tview(out@[k]) == apply(tview(args@[k]), unifier@),
                    decreases args.len() - i,
                {
                    proof {
                        lemma_decreases_arg(*self, i as int);
                    }
                    out.push(args[i].subst(unifier));
                    i += 1;
                }
                proof {
                    let tv = tviews(args@, args@.len());
                    lemma_tviews(out@, out@.len());
                    lemma_tviews(args@, args@.len());
                    lemma_apply_seq(tv, unifier@, tv.len());
                    assert(tviews(out@, out@.len()) =~= apply_seq(tv, unifier@, tv.len()));
                }
                Term::Function(n.clone(), out)
            },
        }
    }
}

impl Unifier {
    /// The substitution with `var` bound to `t`, `t` put for `var` in the
    /// terms bound before.
    #[verifier::loop_isolation(false)]
    fn bind(self, var: char, t: Term) -> (r: Unifier)
        requires
            !self@.dom().contains(var),
            free_of(tview(t), self@),
            !occurs(var, tview(t)),
        ensures
            r@ == bind(self@, var, tview(t)),
    {
        proof {
            use_type_invariant(&self);
            lemma_entries_map(self.entries@);
        }
        let ghost tv = tview(t);
        let ghost old_map = self@;
        let single_entries = vec![(var, t.copy())];
        proof {
            let es1 = single_entries@;
            assert(keys_distinct(es1));
            lemma_entries_map(es1);
            assert(es1[0].0 == var);
            assert(entries_map(es1).dom().contains(var));
            assert forall|w: char| #[trigger] entries_map(es1).dom().contains(w) implies free_of(entries_map(es1)[w], entries_map(es1)) by {
                let k = choose|k: int| 0 <= k < es1.len() && (#[trigger] es1[k]).0 == w;
                assert(k == 0);
                assert(entries_map(es1)[w] == tv);
                assert forall|u: char| #[trigger] occurs(u, tv) implies !entries_map(es1).dom().contains(u) by {
                    if entries_map(es1).dom().contains(u) {
                        let k2 = choose|k2: int| 0 <= k2 < es1.len() && (#[trigger] es1[k2]).0 == u;
                        assert(k2 == 0);
                    }
                }
            }
        }
        let one = Unifier { entries: single_entries };
        proof {
            lemma_entries_map(one.entries@);
            assert(one@ =~= single(var, tv)) by {
                assert(one.entries@[0] == (var, one.entries@[0].1));
            }
        }
        let mut entries: Vec<(char, Term)> = Vec::new();
        let mut k: usize = 0;
        while k < self.entries.len()
            invariant
                k <= self.entries@.len(),
                entries@.len() == k,
                one@ == single(var, tv),
                forall|j: int| 0 <= j < k ==> (#[trigger] entries@[j]).0 == self.entries@[j].0
                    && tview(entries@[j].1) == apply(tview(self.entries@[j].1), single(var, tv)),
            decreases self.entries.len() - k,
        {
            let (w, s) = (self.entries[k].0, &self.entries[k].1);
            entries.push((w, s.subst(&one)));
            k += 1;
        }
        entries.push((var, t));
        proof {
            let es = entries@;
            assert forall|i: int, j: int| 0 <= i < j < es.len() implies (#[trigger] es[i]).0 != (#[trigger] es[j]).0 by {
                if j == es.len() - 1 {
                    assert(old_map.dom().contains(self.entries@[i].0));
                } else {
                    assert(self.entries@[i].0 != self.entries@[j].0);
                }
            }
            lemma_entries_map(es);
            let b = bind(old_map, var, tv);
            assert forall|v: char| #[trigger] entries_map(es).dom().contains(v) == b.dom().contains(v) by {
                if entries_map(es).dom().contains(v) {
                    let i = choose|i: int| 0 <= i < es.len() && (#[trigger] es[i]).0 == v;
                    if i < es.len() - 1 {
                        assert(self.entries@[i].0 == v);
                        assert(old_map.dom().contains(v));
                    }
                }
                if old_map.dom().contains(v) {
                    let i = choose|i: int| 0 <= i < self.entries@.len() && (#[trigger] self.entries@[i]).0 == v;
                    assert(es[i].0 == v);
                }
                if v == var {
                    assert(es[es.len() - 1].0 == var);
                }
            }
            assert forall|v: char| #[trigger] entries_map(es).dom().contains(v) implies entries_map(es)[v] == b[v] by {
                let i = choose|i: int| 0 <= i < es.len() && (#[trigger] es[i]).0 == v;
                if i < es.len() - 1 {
                    assert(self.entries@[i].0 == v);
                    assert(old_map[v] == tview(self.entries@[i].1));
                } else {
                    assert(es[i] == (var, t));
                }
            }
            assert(entries_map(es) =~= b);
            lemma_bind_idempotent(old_map, var, tv);
        }
        Unifier { entries }
    }
}

/// Every substitution that extends `s0` and unifies `x` and `y` extends
/// `s2`: `s2` is a most general such unifier.
pub open spec fn most_general(s2: Subst, s0: Subst, x: TermV, y: TermV) -> bool {
    forall|th: Subst| #[trigger] absorbs(th, s0) && apply(x, th) == apply(y, th) ==> absorbs(th, s2)
}

/// No substitution that extends `s0` unifies `x` and `y`.
pub open spec fn no_unifier(s0: Subst, x: TermV, y: TermV) -> bool {
    forall|th: Subst| #[trigger] absorbs(th, s0) ==> apply(x, th) != apply(y, th)
}

/// Every substitution that extends `s0` and unifies the lists `xs` and `ys`
/// extends `s2`.
pub open spec fn most_general_args(s2: Subst, s0: Subst, xs: Seq<TermV>, ys: Seq<TermV>) -> bool {
    forall|th: Subst| #[trigger] absorbs(th, s0) && apply_seq(xs, th, xs.len()) == apply_seq(ys, th, ys.len()) ==> absorbs(th, s2)
}

/// No substitution that extends `s0` unifies the lists `xs` and `ys`.
pub open spec fn no_unifier_args(s0: Subst, xs: Seq<TermV>, ys: Seq<TermV>) -> bool {
    forall|th: Subst| #[trigger] absorbs(th, s0) ==> apply_seq(xs, th, xs.len()) != apply_seq(ys, th, ys.len())
}

/// Every substitution that extends `s0` and makes the sentences `x` and `y`
/// the same extends `s2`.
pub open spec fn most_general_sentences(s2: Subst, s0: Subst, x: SentenceV, y: SentenceV) -> bool {
    forall|th: Subst| #[trigger] absorbs(th, s0) && sapply(x, th) == sapply(y, th) ==> absorbs(th, s2)
}

/// No substitution that extends `s0` makes the sentences `x` and `y` the
/// same.
pub open spec fn no_unifier_sentences(s0: Subst, x: SentenceV, y: SentenceV) -> bool {
    forall|th: Subst| #[trigger] absorbs(th, s0) ==> sapply(x, th) != sapply(y, th)
}

/// A substitution that gives `v` and `t` the same image is not changed by
/// first putting `t` for `v`.
proof fn lemma_single_absorbed(th: Subst, v: char, t: TermV, r: TermV)
    requires
        apply(TermV::Var(v), th) == apply(t, th),
    ensures
        apply(apply(r, single(v, t)), th) == apply(r, th),
    decreases r,
{
    match r {
        TermV::Fun(n, args) => {
            let sv = single(v, t);
            let a1 = apply_seq(args, sv, args.len());
            lemma_apply_seq(args, sv, args.len());
            lemma_apply_seq(a1, th, a1.len());
            lemma_apply_seq(args, th, args.len());
            assert forall|i: int| 0 <= i < args.len() implies #[trigger] apply(a1[i], th) == apply(args[i], th) by {
                lemma_single_absorbed(th, v, t, args[i]);
            }
            assert(apply_seq(a1, th, a1.len()) =~= apply_seq(args, th, args.len()));
        },
        _ => {},
    }
}

/// A substitution absorbs another when it does on each variable.
proof fn lemma_absorbs_by_vars(s1: Subst, s2: Subst, r: TermV)
    requires
        forall|w: char| #[trigger] apply(apply(TermV::Var(w), s1), s2) == apply(TermV::Var(w), s2),
    ensures
        apply(apply(r, s1), s2) == apply(r, s2),
    decreases r,
{
    match r {
        TermV::Var(w) => {
            assert(apply(apply(TermV::Var(w), s1), s2) == apply(TermV::Var(w), s2));
        },
        TermV::Fun(n, args) => {
            let a1 = apply_seq(args, s1, args.len());
            lemma_apply_seq(args, s1, args.len());
            lemma_apply_seq(a1, s2, a1.len());
            lemma_apply_seq(args, s2, args.len());
            assert forall|i: int| 0 <= i < args.len() implies #[trigger] apply(a1[i], s2) == apply(args[i], s2) by {
                lemma_absorbs_by_vars(s1, s2, args[i]);
            }
            assert(apply_seq(a1, s2, a1.len()) =~= apply_seq(args, s2, args.len()));
        },
        TermV::Cst(_) => {},
    }
}

/// What absorbing says of one term.
proof fn lemma_use_absorbs(s2: Subst, s1: Subst, t: TermV)
    requires
        absorbs(s2, s1),
    ensures
        apply(apply(t, s1), s2) == apply(t, s2),
{
}

/// A substitution that extends `sub` and gives `v` and `t` the same image
/// is not changed by first applying the binding, on variable `w`.
proof fn lemma_bind_general_var(sub: Subst, v: char, t: TermV, th: Subst, w: char)
    requires
        absorbs(th, sub),
        apply(TermV::Var(v), th) == apply(t, th),
    ensures
        apply(apply(TermV::Var(w), bind(sub, v, t)), th) == apply(TermV::Var(w), th),
{
    let b = bind(sub, v, t);
    let x = TermV::Var(w);
    lemma_use_absorbs(th, sub, x);
    if w != v && sub.dom().contains(w) {
        let r = sub[w];
        lemma_single_absorbed(th, v, t, r);
        assert(apply(x, b) == apply(r, single(v, t)));
        assert(apply(x, sub) == r);
    }
}

/// Binding `v` to `t` is most general: a substitution that extends `sub`
/// and gives `v` and `t` the same image extends the binding.
proof fn lemma_bind_general(sub: Subst, v: char, t: TermV, th: Subst)
    requires
        absorbs(th, sub),
        apply(TermV::Var(v), th) == apply(t, th),
    ensures
        absorbs(th, bind(sub, v, t)),
{
    let b = bind(sub, v, t);
    assert forall|w: char| #[trigger] apply(apply(TermV::Var(w), b), th) == apply(TermV::Var(w), th) by {
        lemma_bind_general_var(sub, v, t, th, w);
    }
    assert forall|r: TermV| #[trigger] apply(apply(r, b), th) == apply(r, th) by {
        lemma_absorbs_by_vars(b, th, r);
    }
}

/// The image of a term weighs at least as much as that of a variable in it.
proof fn lemma_occurs_size(v: char, t: TermV, th: Subst)
    requires
        occurs(v, t),
    ensures
        size(apply(t, th)) >= size(apply(TermV::Var(v), th)),
        t != TermV::Var(v) ==> size(apply(t, th)) > size(apply(TermV::Var(v), th)),
    decreases t,
{
    match t {
        TermV::Fun(n, args) => {
            lemma_occurs_seq(v, args, args.len());
            let i = choose|i: int| 0 <= i < args.len() && #[trigger] occurs(v, args[i]);
            lemma_occurs_size(v, args[i], th);
            let im = apply_seq(args, th, args.len());
            lemma_apply_seq(args, th, args.len());
            lemma_size_seq(im, im.len(), i);
        },
        _ => {},
    }
}

/// Every substitution extends the empty one.
proof fn lemma_absorbs_empty(th: Subst)
    ensures
        absorbs(th, Map::<char, TermV>::empty()),
{
    assert forall|t: TermV| #[trigger] apply(apply(t, Map::<char, TermV>::empty()), th) == apply(t, th) by {
        lemma_apply_free(t, Map::<char, TermV>::empty());
    }
}

/// The weight of a term in the measure that bounds unification: twice the
/// size of its image, plus one for a bound variable.
pub open spec fn weight(t: TermV, sub: Subst) -> nat {
    2 * size(apply(t, sub)) + if t is Var && sub.dom().contains(t->Var_0) { 1nat } else { 0nat }
}

/// `s2` comes from `s1` by binding more variables of `u`: it absorbs `s1`,
/// binds all `s1` binds, mentions only variables of `u`, is in solved form,
/// and is `s1` itself when it binds no more.
pub open spec fn refines(s2: Subst, s1: Subst, u: Set<char>) -> bool {
    &&& absorbs(s2, s1)
    &&& s1.dom().subset_of(s2.dom())
    &&& scope(s2).subset_of(u)
    &&& idempotent(s2)
    &&& (s2.dom() == s1.dom() ==> s2 == s1)
}

/// Binding another variable of `u` leaves fewer of them unbound.
proof fn lemma_fewer_unbound(u: Set<char>, a: Set<char>, b: Set<char>)
    requires
        u.finite(),
        a.subset_of(b),
        b.subset_of(u),
        a != b,
    ensures
        u.difference(b).len() < u.difference(a).len(),
{
    let e = choose|e: char| b.contains(e) && !a.contains(e) || !b.contains(e) && a.contains(e);
    if !(b.contains(e) && !a.contains(e)) {
        assert(a =~= b);
    }
    let da = u.difference(a);
    let db = u.difference(b);
    assert(db.subset_of(da.remove(e)));
    vstd::set_lib::lemma_len_subset(db, da.remove(e));
}

/// A function term's image weighs more than that of each argument.
proof fn lemma_weight_arg(n: Seq<char>, args: Seq<TermV>, sub: Subst, i: int)
    requires
        0 <= i < args.len(),
    ensures
        weight(args[i], sub) < weight(TermV::Fun(n, args), sub),
{
    let im = apply_seq(args, sub, args.len());
    lemma_apply_seq(args, sub, args.len());
    lemma_size_seq(im, args.len(), i);
    assert(apply(TermV::Fun(n, args), sub) == TermV::Fun(n, im));
    assert(size(TermV::Fun(n, im)) == 1 + size_seq(im, im.len()));
    assert(im[i] == apply(args[i], sub));
}

/// The variables of the image of `t` are among those of `t` and those the
/// substitution mentions.
proof fn lemma_scope_apply(t: TermV, sub: Subst, u: Set<char>)
    requires
        scope(sub).subset_of(u),
        var_set(t).subset_of(u),
    ensures
        var_set(apply(t, sub)).subset_of(u),
{
    lemma_var_set(t);
    lemma_var_set(apply(t, sub));
    assert forall|v: char| #[trigger] var_set(apply(t, sub)).contains(v) implies u.contains(v) by {
        lemma_occurs_apply(v, t, sub);
        let w = choose|w: char| #[trigger] occurs(w, t) && if sub.dom().contains(w) {
            occurs(v, sub[w])
        } else {
            w == v
        };
        if sub.dom().contains(w) {
            assert(scope(sub).contains(v));
        } else {
            assert(var_set(t).contains(w));
        }
    }
}

/// Extends `unifier` so that `x` and `y` get the same image; `None` when no
/// binding of variables can do that.
#[verifier::loop_isolation(false)]
fn unify_term_in(x: &Term, y: &Term, unifier: Unifier, Ghost(u): Ghost<Set<char>>) -> (r: Option<Unifier>)
    requires
        u.finite(),
        scope(unifier@).subset_of(u),
        var_set(tview(*x)).subset_of(u),
        var_set(tview(*y)).subset_of(u),
    ensures
        r matches Some(s2) ==> apply(tview(*x), s2@) == apply(tview(*y), s2@) && refines(s2@, unifier@, u),
        r matches Some(s2) ==> most_general(s2@, unifier@, tview(*x), tview(*y)),
        r is None ==> no_unifier(unifier@, tview(*x), tview(*y)),
    decreases u.difference(unifier@.dom()).len(), weight(tview(*x), unifier@) + weight(tview(*y), unifier@), 1nat,
{
    proof {
        use_type_invariant(&unifier);
        lemma_absorbs_self(unifier@);
        lemma_var_set(tview(*x));
        lemma_var_set(tview(*y));
    }
    let ghost s0 = unifier@;
    if term_eq(x, y) {
        return Some(unifier);
    }
    if let Term::Variable(v) = x {
        assert(var_set(tview(*x)).contains(*v));
        return unify_var_in(*v, y, unifier, Ghost(u));
    }
    if let Term::Variable(v) = y {
        assert(var_set(tview(*y)).contains(*v));
        return unify_var_in(*v, x, unifier, Ghost(u));
    }
    match x {
        Term::Function(n0, args0) => match y {
            Term::Function(n1, args1) => {
                let ghost tx = tviews(args0@, args0@.len());
                let ghost ty = tviews(args1@, args1@.len());
                proof {
                    lemma_tviews(args0@, args0@.len());
                    lemma_tviews(args1@, args1@.len());
                }
                if !(*n0 == *n1) || args0.len() != args1.len() {
                    proof {
                        assert forall|th: Subst| #[trigger] absorbs(th, s0) implies apply(tview(*x), th) != apply(tview(*y), th) by {
                            lemma_apply_seq(tx, th, tx.len());
                            lemma_apply_seq(ty, th, ty.len());
                        }
                    }
                    return None;
                }
                proof {
                    lemma_var_set_seq_sub(tx);
                    lemma_var_set_seq_sub(ty);
                }
                let mut sub = unifier;
                let mut i: usize = 0;
                while i < args0.len()
                    invariant
                        i <= args0@.len(),
                        args0@.len() == args1@.len(),
                        refines(sub@, s0, u),
                        forall|j: int| 0 <= j < i ==> #[trigger] apply(tx[j], sub@) == apply(ty[j], sub@),
                        forall|th: Subst| #[trigger] absorbs(th, s0) && agree(tx, ty, th, i as int) ==> absorbs(th, sub@),
                    decreases args0.len() - i,
                {
                    proof {
                        lemma_decreases_arg(*x, i as int);
                        assert(tx[i as int] == tview(args0@[i as int]));
                        assert(ty[i as int] == tview(args1@[i as int]));
                        assert(var_set(tx[i as int]).subset_of(var_set_seq(tx, tx.len())));
                        assert(var_set(ty[i as int]).subset_of(var_set_seq(ty, ty.len())));
                        assert(var_set(tview(*x)) == var_set_seq(tx, tx.len()));
                        assert(var_set(tview(*y)) == var_set_seq(ty, ty.len()));
                        if sub@.dom() != s0.dom() {
                            lemma_fewer_unbound(u, s0.dom(), sub@.dom());
                        } else {
                            lemma_weight_arg(n0@, tx, s0, i as int);
                            lemma_weight_arg(n1@, ty, s0, i as int);
                        }
                    }
                    let ghost prev = sub@;
                    match unify_term_in(&args0[i], &args1[i], sub, Ghost(u)) {
                        Some(next) => {
                            proof {
                                lemma_absorbs_trans(next@, prev, s0);
                                assert forall|j: int| 0 <= j < i + 1 implies #[trigger] apply(tx[j], next@) == apply(ty[j], next@) by {
                                    if j < i {
                                        assert(apply(apply(tx[j], prev), next@) == apply(tx[j], next@));
                                        assert(apply(apply(ty[j], prev), next@) == apply(ty[j], next@));
                                    }
                                }
                                if next@.dom() == s0.dom() {
                                    assert(prev.dom() =~= s0.dom());
                                }
                                assert forall|th: Subst| #[trigger] absorbs(th, s0) && agree(tx, ty, th, i + 1) implies absorbs(th, next@) by {
                                    assert(agree(tx, ty, th, i as int));
                                    assert(absorbs(th, prev));
                                    assert(apply(tx[i as int], th) == apply(ty[i as int], th));
                                }
                            }
                            sub = next;
                        },
                        None => {
                            proof {
                                assert forall|th: Subst| #[trigger] absorbs(th, s0) implies apply(tview(*x), th) != apply(tview(*y), th) by {
                                    if apply(tview(*x), th) == apply(tview(*y), th) {
                                        lemma_agree_args(n0@, n1@, tx, ty, th);
                                        assert(agree(tx, ty, th, tx.len() as int));
                                        assert(agree(tx, ty, th, i as int));
                                        assert(absorbs(th, prev));
                                        assert(apply(tx[i as int], th) == apply(ty[i as int], th));
                                    }
                                }
                            }
                            return None;
                        },
                    }
                    i += 1;
                }
                proof {
                    lemma_apply_seq(tx, sub@, tx.len());
                    lemma_apply_seq(ty, sub@, ty.len());
                    assert(apply_seq(tx, sub@, tx.len()) =~= apply_seq(ty, sub@, ty.len()));
                    assert forall|th: Subst| #[trigger] absorbs(th, s0) && apply(tview(*x), th) == apply(tview(*y), th) implies absorbs(th, sub@) by {
                        lemma_agree_args(n0@, n1@, tx, ty, th);
                    }
                }
                Some(sub)
            },
            _ => None,
        },
        _ => None,
    }
}

/// The terms of `tx` and `ty` before position `i` have the same images
/// under `th`.
pub open spec fn agree(tx: Seq<TermV>, ty: Seq<TermV>, th: Subst, i: int) -> bool {
    forall|j: int| 0 <= j < i ==> #[trigger] apply(tx[j], th) == apply(ty[j], th)
}

/// Function terms with the same image have arguments with the same images.
proof fn lemma_agree_args(n0: Seq<char>, n1: Seq<char>, tx: Seq<TermV>, ty: Seq<TermV>, th: Subst)
    requires
        apply(TermV::Fun(n0, tx), th) == apply(TermV::Fun(n1, ty), th),
    ensures
        tx.len() == ty.len(),
        forall|i: int| 0 <= i <= tx.len() ==> agree(tx, ty, th, i),
{
    lemma_apply_seq(tx, th, tx.len());
    lemma_apply_seq(ty, th, ty.len());
    let ax = apply_seq(tx, th, tx.len());
    let ay = apply_seq(ty, th, ty.len());
    assert(ax.len() == tx.len() && ay.len() == ty.len());
    assert(tx.len() == ty.len());
    assert forall|j: int| 0 <= j < tx.len() implies #[trigger] apply(tx[j], th) == apply(ty[j], th) by {
        assert(ax[j] == apply(tx[j], th));
        assert(ay[j] == apply(ty[j], th));
        assert(ax[j] == ay[j]);
    }
}

/// The variables of the arguments of a function term are those of the term.
proof fn lemma_var_set_seq_sub(args: Seq<TermV>)
    ensures
        forall|i: int| 0 <= i < args.len() ==> (#[trigger] var_set(args[i])).subset_of(var_set_seq(args, args.len())),
{
    assert forall|i: int| 0 <= i < args.len() implies (#[trigger] var_set(args[i])).subset_of(var_set_seq(args, args.len())) by {
        lemma_var_set(args[i]);
        lemma_var_set_seq(args, args.len());
        assert forall|v: char| #[trigger] var_set(args[i]).contains(v) implies var_set_seq(args, args.len()).contains(v) by {
            lemma_occurs_seq(v, args, args.len());
        }
    }
}

/// Extends `unifier` so that variable `var` and `x` get the same image.
#[verifier::loop_isolation(false)]
fn unify_var_in(var: char, x: &Term, unifier: Unifier, Ghost(u): Ghost<Set<char>>) -> (r: Option<Unifier>)
    requires
        u.finite(),
        scope(unifier@).subset_of(u),
        u.contains(var),
        var_set(tview(*x)).subset_of(u),
        tview(*x) != TermV::Var(var),
    ensures
        r matches Some(s2) ==> apply(TermV::Var(var), s2@) == apply(tview(*x), s2@) && refines(s2@, unifier@, u),
        r matches Some(s2) ==> most_general(s2@, unifier@, TermV::Var(var), tview(*x)),
        r is None ==> no_unifier(unifier@, TermV::Var(var), tview(*x)),
    decreases u.difference(unifier@.dom()).len(), weight(TermV::Var(var), unifier@) + weight(tview(*x), unifier@), 0nat,
{
    proof {
        use_type_invariant(&unifier);
        lemma_absorbs_self(unifier@);
    }
    let ghost s0 = unifier@;
    if let Some(val) = unifier.get(var) {
        let val = val.copy();
        proof {
            assert(free_of(tview(val), s0));
            lemma_apply_free(tview(val), s0);
            lemma_var_set(tview(val));
            assert forall|v: char| #[trigger] var_set(tview(val)).contains(v) implies u.contains(v) by {
                assert(scope(s0).contains(v));
            }
            assert(scope(s0).contains(var));
        }
        proof {
            if tview(val) is Var {
                assert(occurs(tview(val)->Var_0, tview(val)));
            }
            assert(weight(tview(val), s0) < weight(TermV::Var(var), s0));
        }
        let r = unify_term_in(&val, x, unifier, Ghost(u));
        proof {
            if r is Some {
                let s2 = r->0;
                assert(apply(apply(TermV::Var(var), s0), s2@) == apply(TermV::Var(var), s2@));
            }
        }
        return r;
    }
    if let Term::Variable(w) = x {
        if let Some(val) = unifier.get(*w) {
            let val = val.copy();
            let me = Term::Variable(var);
            proof {
                assert(free_of(tview(val), s0));
                lemma_apply_free(tview(val), s0);
                lemma_var_set(tview(val));
                lemma_var_set(tview(me));
                assert forall|v: char| #[trigger] var_set(tview(val)).contains(v) implies u.contains(v) by {
                    assert(scope(s0).contains(v));
                }
                assert(var_set(tview(me)).subset_of(u));
            }
            proof {
                if tview(val) is Var {
                    assert(occurs(tview(val)->Var_0, tview(val)));
                }
                assert(weight(tview(val), s0) < weight(TermV::Var(*w), s0));
                assert(tview(*x) == TermV::Var(*w));
            }
            let r = unify_term_in(&me, &val, unifier, Ghost(u));
            proof {
                if r is Some {
                    let s2 = r->0;
                    assert(apply(apply(TermV::Var(*w), s0), s2@) == apply(TermV::Var(*w), s2@));
                }
            }
            return r;
        }
    }
    let t = x.subst(&unifier);
    if t.occur_check(var) {
        proof {
            assert(tview(t) != TermV::Var(var)) by {
                match *x {
                    Term::Variable(w) => {
                        assert(!s0.dom().contains(w));
                    },
                    Term::Function(..) => {},
                    Term::Constant(..) => {},
                }
            }
            assert forall|th: Subst| #[trigger] absorbs(th, s0) implies apply(TermV::Var(var), th) != apply(tview(*x), th) by {
                lemma_use_absorbs(th, s0, tview(*x));
                lemma_occurs_size(var, tview(t), th);
            }
        }
        return None;
    }
    proof {
        lemma_apply_resolved(tview(*x), s0);
        lemma_scope_apply(tview(*x), s0, u);
        lemma_var_set(tview(t));
        lemma_bind_idempotent(s0, var, tview(t));
    }
    let ghost tv = tview(t);
    let r = unifier.bind(var, t);
    proof {
        let b = bind(s0, var, tv);
        assert forall|s: TermV| #[trigger] apply(apply(s, s0), b) == apply(s, b) by {
            lemma_bind_absorbs(s0, var, tv, s);
        }
        assert(free_of(tv, b)) by {
            assert forall|v: char| #[trigger] occurs(v, tv) implies !b.dom().contains(v) by {}
        }
        lemma_apply_free(tv, b);
        assert(apply(apply(tview(*x), s0), b) == apply(tview(*x), b));
        assert(b.dom().contains(var));
        assert(!s0.dom().contains(var));
        assert forall|v: char| #[trigger] scope(b).contains(v) implies u.contains(v) by {
            if !b.dom().contains(v) {
                let w = choose|w: char| #[trigger] b.dom().contains(w) && occurs(v, b[w]);
                if w == var {
                    assert(var_set(tv).contains(v));
                } else {
                    lemma_occurs_apply(v, s0[w], single(var, tv));
                    let w2 = choose|w2: char| #[trigger] occurs(w2, s0[w]) && if single(var, tv).dom().contains(w2) {
                        occurs(v, single(var, tv)[w2])
                    } else {
                        w2 == v
                    };
                    if w2 == var {
                        assert(var_set(tv).contains(v));
                    } else {
                        assert(scope(s0).contains(v));
                    }
                }
            } else if v != var {
                assert(scope(s0).contains(v));
            }
        }
        assert(b.dom() != s0.dom());
        assert forall|th: Subst| #[trigger] absorbs(th, s0) && apply(TermV::Var(var), th) == apply(tview(*x), th) implies absorbs(th, b) by {
            lemma_use_absorbs(th, s0, tview(*x));
            lemma_bind_general(s0, var, tv, th);
        }
    }
    Some(r)
}

/// A unifier of `x` and `y` that extends `unifier`: a substitution in
/// solved form that absorbs `unifier` and gives `x` and `y` the same image;
/// `None` when the search for one fails.
pub fn unify_term(x: &Term, y: &Term, unifier: Unifier) -> (r: Option<Unifier>)
    ensures
        r matches Some(s2) ==> apply(tview(*x), s2@) == apply(tview(*y), s2@) && absorbs(s2@, unifier@)
            && idempotent(s2@),
        r matches Some(s2) ==> most_general(s2@, unifier@, tview(*x), tview(*y)),
        r is None ==> no_unifier(unifier@, tview(*x), tview(*y)),
{
    proof {
        use_type_invariant(&unifier);
        lemma_entries_scope(unifier.entries@);
        lemma_var_set(tview(*x));
        lemma_var_set(tview(*y));
    }
    let ghost u = scope(unifier@).union(var_set(tview(*x))).union(var_set(tview(*y)));
    unify_term_in(x, y, unifier, Ghost(u))
}

/// A unifier of the two lists of terms, pair by pair, that extends
/// `unifier`; `None` when they differ in length or a pair fails to unify.
fn unify_terms(xs: &Vec<Term>, ys: &Vec<Term>, unifier: Unifier) -> (r: Option<Unifier>)
    ensures
        r matches Some(s2) ==> apply_seq(tviews(xs@, xs@.len()), s2@, xs@.len())
            == apply_seq(tviews(ys@, ys@.len()), s2@, ys@.len()) && absorbs(s2@, unifier@) && idempotent(s2@),
        r matches Some(s2) ==> most_general_args(s2@, unifier@, tviews(xs@, xs@.len()), tviews(ys@, ys@.len())),
        r is None ==> no_unifier_args(unifier@, tviews(xs@, xs@.len()), tviews(ys@, ys@.len())),
{
    proof {
        use_type_invariant(&unifier);
        lemma_absorbs_self(unifier@);
    }
    let ghost s0 = unifier@;
    let ghost tx = tviews(xs@, xs@.len());
    let ghost ty = tviews(ys@, ys@.len());
    proof {
        lemma_tviews(xs@, xs@.len());
        lemma_tviews(ys@, ys@.len());
    }
    if xs.len() != ys.len() {
        proof {
            assert forall|th: Subst| #[trigger] absorbs(th, s0) implies apply_seq(tx, th, tx.len()) != apply_seq(ty, th, ty.len()) by {
                lemma_apply_seq(tx, th, tx.len());
                lemma_apply_seq(ty, th, ty.len());
            }
        }
        return None;
    }
    let mut sub = unifier;
    let mut i: usize = 0;
    while i < xs.len()
        invariant
            i <= xs@.len(),
            xs@.len() == ys@.len(),
            s0 == unifier@,
            tx == tviews(xs@, xs@.len()),
            ty == tviews(ys@, ys@.len()),
            tx.len() == xs@.len(),
            ty.len() == ys@.len(),
            forall|k: int| 0 <= k < xs@.len() ==> #[trigger] tx[k] == tview(xs@[k]),
            forall|k: int| 0 <= k < ys@.len() ==> #[trigger] ty[k] == tview(ys@[k]),
            absorbs(sub@, s0),
            idempotent(sub@),
            forall|j: int| 0 <= j < i ==> #[trigger] apply(tx[j], sub@) == apply(ty[j], sub@),
            forall|th: Subst| #[trigger] absorbs(th, s0) && agree(tx, ty, th, i as int) ==> absorbs(th, sub@),
        decreases xs.len() - i,
    {
        let ghost prev = sub@;
        match unify_term(&xs[i], &ys[i], sub) {
            Some(next) => {
                proof {
                    lemma_absorbs_trans(next@, prev, s0);
                    assert forall|j: int| 0 <= j < i + 1 implies #[trigger] apply(tx[j], next@) == apply(ty[j], next@) by {
                        if j < i {
                            assert(apply(apply(tx[j], prev), next@) == apply(tx[j], next@));
                            assert(apply(apply(ty[j], prev), next@) == apply(ty[j], next@));
                        }
                    }
                    assert forall|th: Subst| #[trigger] absorbs(th, s0) && agree(tx, ty, th, i + 1) implies absorbs(th, next@) by {
                        assert(agree(tx, ty, th, i as int));
                        assert(absorbs(th, prev));
                        assert(apply(tx[i as int], th) == apply(ty[i as int], th));
                    }
                }
                sub = next;
            },
            None => {
                proof {
                    assert forall|th: Subst| #[trigger] absorbs(th, s0) implies apply_seq(tx, th, tx.len()) != apply_seq(ty, th, ty.len()) by {
                        if apply_seq(tx, th, tx.len()) == apply_seq(ty, th, ty.len()) {
                            lemma_agree_seqs(tx, ty, th);
                            assert(agree(tx, ty, th, tx.len() as int));
                            assert(agree(tx, ty, th, i as int));
                            assert(absorbs(th, prev));
                            assert(apply(tx[i as int], th) == apply(ty[i as int], th));
                            assert(tx[i as int] == tview(xs@[i as int]));
                            assert(ty[i as int] == tview(ys@[i as int]));
                        }
                    }
                    assert(no_unifier_args(s0, tx, ty));
                }
                return None;
            },
        }
        i += 1;
    }
    proof {
        lemma_apply_seq(tx, sub@, tx.len());
        lemma_apply_seq(ty, sub@, ty.len());
        assert(apply_seq(tx, sub@, tx.len()) =~= apply_seq(ty, sub@, ty.len()));
        assert forall|th: Subst| #[trigger] absorbs(th, s0) && apply_seq(tx, th, tx.len()) == apply_seq(ty, th, ty.len()) implies absorbs(th, sub@) by {
            lemma_agree_seqs(tx, ty, th);
        }
    }
    Some(sub)
}

/// Lists of terms with the same images have the same image term by term.
proof fn lemma_agree_seqs(tx: Seq<TermV>, ty: Seq<TermV>, th: Subst)
    requires
        apply_seq(tx, th, tx.len()) == apply_seq(ty, th, ty.len()),
    ensures
        tx.len() == ty.len(),
        forall|i: int| 0 <= i <= tx.len() ==> agree(tx, ty, th, i),
{
    lemma_apply_seq(tx, th, tx.len());
    lemma_apply_seq(ty, th, ty.len());
    let ax = apply_seq(tx, th, tx.len());
    let ay = apply_seq(ty, th, ty.len());
    assert(ax.len() == tx.len() && ay.len() == ty.len());
    assert(tx.len() == ty.len());
    assert forall|j: int| 0 <= j < tx.len() implies #[trigger] apply(tx[j], th) == apply(ty[j], th) by {
        assert(ax[j] == apply(tx[j], th));
        assert(ay[j] == apply(ty[j], th));
        assert(ax[j] == ay[j]);
    }
}

/// Unifies the two sides of two binary sentences, left with left and then
/// right with right.
fn unify_sides(
    l0: &Sentence,
    r0: &Sentence,
    l1: &Sentence,
    r1: &Sentence,
    unifier: Unifier,
    Ghost(parent): Ghost<Sentence>,
) -> (r: Option<Unifier>)
    requires
        comparable(sview(*l0), sview(*l1)),
        comparable(sview(*r0), sview(*r1)),
        decreases_to!(parent => *l0),
        decreases_to!(parent => *r0),
    ensures
        r matches Some(s2) ==> sapply(sview(*l0), s2@) == sapply(sview(*l1), s2@) && sapply(sview(*r0), s2@)
            == sapply(sview(*r1), s2@) && absorbs(s2@, unifier@) && idempotent(s2@),
        r matches Some(s2) ==> forall|th: Subst| #[trigger] absorbs(th, unifier@) && sapply(sview(*l0), th)
            == sapply(sview(*l1), th) && sapply(sview(*r0), th) == sapply(sview(*r1), th) ==> absorbs(th, s2@),
        r is None ==> forall|th: Subst| #[trigger] absorbs(th, unifier@) ==> !(sapply(sview(*l0), th)
            == sapply(sview(*l1), th) && sapply(sview(*r0), th) == sapply(sview(*r1), th)),
    decreases parent, 0nat,
{
    let ghost s0 = unifier@;
    match unify_sentence(l0, l1, unifier) {
        Some(left) => {
            let ghost ls = left@;
            let r = unify_sentence(r0, r1, left);
            proof {
                if r is Some {
                    let s2 = r->0@;
                    lemma_absorbs_trans(s2, ls, s0);
                    lemma_sapply_absorbs(sview(*l0), ls, s2);
                    lemma_sapply_absorbs(sview(*l1), ls, s2);
                    assert forall|th: Subst| #[trigger] absorbs(th, s0) && sapply(sview(*l0), th)
                        == sapply(sview(*l1), th) && sapply(sview(*r0), th) == sapply(sview(*r1), th) implies absorbs(th, s2) by {
                        assert(absorbs(th, ls));
                    }
                } else {
                    assert forall|th: Subst| #[trigger] absorbs(th, s0) implies !(sapply(sview(*l0), th)
                        == sapply(sview(*l1), th) && sapply(sview(*r0), th) == sapply(sview(*r1), th)) by {
                        if sapply(sview(*l0), th) == sapply(sview(*l1), th) {
                            assert(absorbs(th, ls));
                        }
                    }
                }
            }
            r
        },
        None => None,
    }
}

/// A unifier of the two sentences that extends `unifier`: a substitution
/// in solved form that absorbs `unifier` and makes the sentences the same;
/// `None` when the search for one fails.
pub fn unify_sentence(x: &Sentence, y: &Sentence, unifier: Unifier) -> (r: Option<Unifier>)
    requires
        comparable(sview(*x), sview(*y)),
    ensures
        r matches Some(s2) ==> sapply(sview(*x), s2@) == sapply(sview(*y), s2@) && absorbs(s2@, unifier@)
            && idempotent(s2@),
        r matches Some(s2) ==> most_general_sentences(s2@, unifier@, sview(*x), sview(*y)),
        r is None ==> no_unifier_sentences(unifier@, sview(*x), sview(*y)),
    decreases x, 1nat,
{
    proof {
        use_type_invariant(&unifier);
        lemma_absorbs_self(unifier@);
    }
    if sentence_eq(x, y) {
        return Some(unifier);
    }
    match x {
        Sentence::Predicate(p0, args0) => match y {
            Sentence::Predicate(p1, args1) => {
                if !(*p0 == *p1) {
                    return None;
                }
                let r = unify_terms(args0, args1, unifier);
                proof {
                    lemma_tviews(args0@, args0@.len());
                    lemma_tviews(args1@, args1@.len());
                }
                r
            },
            _ => None,
        },
        Sentence::Not(a0) => match y {
            Sentence::Not(a1) => unify_sentence(a0, a1, unifier),
            _ => None,
        },
        Sentence::And(l0, r0) => match y {
            Sentence::And(l1, r1) => unify_sides(l0, r0, l1, r1, unifier, Ghost(*x)),
            _ => None,
        },
        Sentence::Or(l0, r0) => match y {
            Sentence::Or(l1, r1) => unify_sides(l0, r0, l1, r1, unifier, Ghost(*x)),
            _ => None,
        },
        Sentence::Imply(l0, r0) => match y {
            Sentence::Imply(l1, r1) => unify_sides(l0, r0, l1, r1, unifier, Ghost(*x)),
            _ => None,
        },
        Sentence::Iff(l0, r0) => match y {
            Sentence::Iff(l1, r1) => unify_sides(l0, r0, l1, r1, unifier, Ghost(*x)),
            _ => None,
        },
        Sentence::Equal(l0, r0) => match y {
            Sentence::Equal(l1, r1) => match unify_term(l0, l1, unifier) {
                Some(left) => {
                    let ghost ls = left@;
                    let r = unify_term(r0, r1, left);
                    proof {
                        if r is Some {
                            let s2 = r->0@;
                            lemma_absorbs_trans(s2, ls, unifier@);
                            assert(apply(apply(tview(*l0), ls), s2) == apply(tview(*l0), s2));
                            assert(apply(apply(tview(*l1), ls), s2) == apply(tview(*l1), s2));
                        }
                    }
                    r
                },
                None => None,
            },
            _ => None,
        },
        Sentence::Quantified(..) => None,
    }
}

/// A unifier of the two sentences: a substitution in solved form that makes
/// them the same; `None` when the search for one fails.
pub fn unify(x: &Sentence, y: &Sentence) -> (r: Option<Unifier>)
    requires
        comparable(sview(*x), sview(*y)),
    ensures
        r matches Some(s2) ==> sapply(sview(*x), s2@) == sapply(sview(*y), s2@) && idempotent(s2@),
        r matches Some(s2) ==> forall|th: Subst| #[trigger] sapply(sview(*x), th) == sapply(sview(*y), th)
            ==> absorbs(th, s2@),
        r is None ==> forall|th: Subst| #[trigger] sapply(sview(*x), th) != sapply(sview(*y), th),
{
    let u = Unifier::new();
    let ghost s0 = u@;
    let r = unify_sentence(x, y, u);
    proof {
        if r is Some {
            assert forall|th: Subst| #[trigger] sapply(sview(*x), th) == sapply(sview(*y), th)
                implies absorbs(th, r->0@) by {
                lemma_absorbs_empty(th);
                assert(absorbs(th, s0));
            }
        } else {
            assert forall|th: Subst| #[trigger] sapply(sview(*x), th) != sapply(sview(*y), th) by {
                lemma_absorbs_empty(th);
                assert(absorbs(th, s0));
            }
        }
    }
    r
}

} // verus!
