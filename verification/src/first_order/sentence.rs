use vstd::prelude::*;
use super::term::{Term, TermV, Var, Subst, tview, tviews, lemma_tviews, apply, apply_seq, lemma_apply_seq, absorbs, term_eq, term_text, args_text, write_args};
use crate::strings::{push_char, push_str};
use super::unify::Unifier;

verus! {

/// A quantifier with the variable it binds.
#[derive(Clone, Copy, PartialEq, Eq, Structural, Debug)]
pub enum Quantifier {
    Univeral(Var),
    Existential(Var),
}

/// A sentence of first-order logic.
#[derive(Debug, PartialEq)]
pub enum Sentence {
    Predicate(String, Vec<Term>),
    Not(Box<Sentence>),
    Quantified(Quantifier, Box<Sentence>),
    And(Box<Sentence>, Box<Sentence>),
    Or(Box<Sentence>, Box<Sentence>),
    Imply(Box<Sentence>, Box<Sentence>),
    Iff(Box<Sentence>, Box<Sentence>),
    Equal(Term, Term),
}

/// A sentence as a mathematical value.
pub enum SentenceV {
    Pred(Seq<char>, Seq<TermV>),
    Not(Box<SentenceV>),
    Quant(Quantifier, Box<SentenceV>),
    And(Box<SentenceV>, Box<SentenceV>),
    Or(Box<SentenceV>, Box<SentenceV>),
    Imply(Box<SentenceV>, Box<SentenceV>),
    Iff(Box<SentenceV>, Box<SentenceV>),
    Equal(TermV, TermV),
}

/// The value of a sentence.
pub open spec fn sview(s: Sentence) -> SentenceV
    decreases s,
{
    match s {
        Sentence::Predicate(n, args) => SentenceV::Pred(n@, tviews(args@, args@.len())),
        Sentence::Not(a) => SentenceV::Not(Box::new(sview(*a))),
        Sentence::Quantified(q, a) => SentenceV::Quant(q, Box::new(sview(*a))),
        Sentence::And(a, b) => SentenceV::And(Box::new(sview(*a)), Box::new(sview(*b))),
        Sentence::Or(a, b) => SentenceV::Or(Box::new(sview(*a)), Box::new(sview(*b))),
        Sentence::Imply(a, b) => SentenceV::Imply(Box::new(sview(*a)), Box::new(sview(*b))),
        Sentence::Iff(a, b) => SentenceV::Iff(Box::new(sview(*a)), Box::new(sview(*b))),
        Sentence::Equal(a, b) => SentenceV::Equal(tview(a), tview(b)),
    }
}

/// The sentence with the substitution applied to each of its terms, those
/// under a quantifier included.
pub open spec fn sapply(s: SentenceV, sub: Subst) -> SentenceV
    decreases s,
{
    match s {
        SentenceV::Pred(n, args) => SentenceV::Pred(n, apply_seq(args, sub, args.len())),
        SentenceV::Not(a) => SentenceV::Not(Box::new(sapply(*a, sub))),
        SentenceV::Quant(q, a) => SentenceV::Quant(q, Box::new(sapply(*a, sub))),
        SentenceV::And(a, b) => SentenceV::And(Box::new(sapply(*a, sub)), Box::new(sapply(*b, sub))),
        SentenceV::Or(a, b) => SentenceV::Or(Box::new(sapply(*a, sub)), Box::new(sapply(*b, sub))),
        SentenceV::Imply(a, b) => SentenceV::Imply(Box::new(sapply(*a, sub)), Box::new(sapply(*b, sub))),
        SentenceV::Iff(a, b) => SentenceV::Iff(Box::new(sapply(*a, sub)), Box::new(sapply(*b, sub))),
        SentenceV::Equal(a, b) => SentenceV::Equal(apply(a, sub), apply(b, sub)),
    }
}

/// Whether unifying `x` with `y` never has to compare a quantified sentence
/// with a different one: only sentences without quantifiers are unified.
pub open spec fn comparable(x: SentenceV, y: SentenceV) -> bool
    decreases x,
{
    if x == y {
        true
    } else {
        match x {
            SentenceV::Quant(..) => false,
            SentenceV::Not(a) => match y {
                SentenceV::Not(b) => comparable(*a, *b),
                _ => !(y is Quant),
            },
            SentenceV::And(l0, r0) => match y {
                SentenceV::And(l1, r1) => comparable(*l0, *l1) && comparable(*r0, *r1),
                _ => !(y is Quant),
            },
            SentenceV::Or(l0, r0) => match y {
                SentenceV::Or(l1, r1) => comparable(*l0, *l1) && comparable(*r0, *r1),
                _ => !(y is Quant),
            },
            SentenceV::Imply(l0, r0) => match y {
                SentenceV::Imply(l1, r1) => comparable(*l0, *l1) && comparable(*r0, *r1),
                _ => !(y is Quant),
            },
            SentenceV::Iff(l0, r0) => match y {
                SentenceV::Iff(l1, r1) => comparable(*l0, *l1) && comparable(*r0, *r1),
                _ => !(y is Quant),
            },
            _ => !(y is Quant),
        }
    }
}

/// Applying `s1` and then `s2` to a sentence is applying `s2`, when `s2`
/// absorbs `s1`.
pub proof fn lemma_sapply_absorbs(s: SentenceV, s1: Subst, s2: Subst)
    requires
        absorbs(s2, s1),
    ensures
        sapply(sapply(s, s1), s2) == sapply(s, s2),
    decreases s,
{
    match s {
        SentenceV::Pred(n, args) => {
            let a1 = apply_seq(args, s1, args.len());
            lemma_apply_seq(args, s1, args.len());
            lemma_apply_seq(a1, s2, a1.len());
            lemma_apply_seq(args, s2, args.len());
            assert forall|i: int| 0 <= i < args.len() implies #[trigger] apply_seq(a1, s2, a1.len())[i]
                == apply_seq(args, s2, args.len())[i] by {
                assert(apply(apply(args[i], s1), s2) == apply(args[i], s2));
            }
            assert(apply_seq(a1, s2, a1.len()) =~= apply_seq(args, s2, args.len()));
        },
        SentenceV::Not(a) => lemma_sapply_absorbs(*a, s1, s2),
        SentenceV::Quant(_, a) => lemma_sapply_absorbs(*a, s1, s2),
        SentenceV::And(a, b) => {
            lemma_sapply_absorbs(*a, s1, s2);
            lemma_sapply_absorbs(*b, s1, s2);
        },
        SentenceV::Or(a, b) => {
            lemma_sapply_absorbs(*a, s1, s2);
            lemma_sapply_absorbs(*b, s1, s2);
        },
        SentenceV::Imply(a, b) => {
            lemma_sapply_absorbs(*a, s1, s2);
            lemma_sapply_absorbs(*b, s1, s2);
        },
        SentenceV::Iff(a, b) => {
            lemma_sapply_absorbs(*a, s1, s2);
            lemma_sapply_absorbs(*b, s1, s2);
        },
        SentenceV::Equal(a, b) => {
            assert(apply(apply(a, s1), s2) == apply(a, s2));
            assert(apply(apply(b, s1), s2) == apply(b, s2));
        },
    }
}

/// Whether two lists of terms are the same.
pub fn terms_eq(a: &Vec<Term>, b: &Vec<Term>) -> (r: bool)
    ensures
        r == (tviews(a@, a@.len()) == tviews(b@, b@.len())),
{
    proof {
        lemma_tviews(a@, a@.len());
        lemma_tviews(b@, b@.len());
    }
    if a.len() != b.len() {
        assert(tviews(a@, a@.len()).len() != tviews(b@, b@.len()).len());
        return false;
    }
    let mut i: usize = 0;
    while i < a.len()
        invariant
            i <= a@.len(),
            a@.len() == b@.len(),
            tviews(a@, a@.len()).len() == a@.len(),
            tviews(b@, b@.len()).len() == b@.len(),
            forall|k: int| 0 <= k < a@.len() ==> #[trigger] tviews(a@, a@.len())[k] == tview(a@[k]),
            forall|k: int| 0 <= k < b@.len() ==> #[trigger] tviews(b@, b@.len())[k] == tview(b@[k]),
            forall|k: int| 0 <= k < i ==> #[trigger] tview(a@[k]) == tview(b@[k]),
        decreases a.len() - i,
    {
        if !term_eq(&a[i], &b[i]) {
            assert(tviews(a@, a@.len())[i as int] != tviews(b@, b@.len())[i as int]);
            return false;
        }
        i += 1;
    }
    assert(tviews(a@, a@.len()) =~= tviews(b@, b@.len()));
    true
}

/// Whether two sentences are the same.
pub fn sentence_eq(a: &Sentence, b: &Sentence) -> (r: bool)
    ensures
        r == (sview(*a) == sview(*b)),
    decreases a,
{
    match a {
        Sentence::Predicate(n0, args0) => match b {
            Sentence::Predicate(n1, args1) => *n0 == *n1 && terms_eq(args0, args1),
            _ => false,
        },
        Sentence::Not(a0) => match b {
            Sentence::Not(b0) => sentence_eq(a0, b0),
            _ => false,
        },
        Sentence::Quantified(q0, a0) => match b {
            Sentence::Quantified(q1, b0) => *q0 == *q1 && sentence_eq(a0, b0),
            _ => false,
        },
        Sentence::And(l0, r0) => match b {
            Sentence::And(l1, r1) => sentence_eq(l0, l1) && sentence_eq(r0, r1),
            _ => false,
        },
        Sentence::Or(l0, r0) => match b {
            Sentence::Or(l1, r1) => sentence_eq(l0, l1) && sentence_eq(r0, r1),
            _ => false,
        },
        Sentence::Imply(l0, r0) => match b {
            Sentence::Imply(l1, r1) => sentence_eq(l0, l1) && sentence_eq(r0, r1),
            _ => false,
        },
        Sentence::Iff(l0, r0) => match b {
            Sentence::Iff(l1, r1) => sentence_eq(l0, l1) && sentence_eq(r0, r1),
            _ => false,
        },
        Sentence::Equal(l0, r0) => match b {
            Sentence::Equal(l1, r1) => term_eq(l0, l1) && term_eq(r0, r1),
            _ => false,
        },
    }
}

impl Sentence {
    /// The sentence with each of its terms substituted by `unifier`.
    pub fn subst(&self, unifier: &Unifier) -> (r: Sentence)
        ensures
            sview(r) == sapply(sview(*self), unifier@),
        decreases self,
    {
        match self {
            Sentence::Predicate(n, args) => {
                let mut out: Vec<Term> = Vec::new();
                let mut i: usize = 0;
                while i < args.len()
                    invariant
                        i <= args@.len(),
                        out@.len() == i,
                        forall|k: int| 0 <= k < i ==> #[trigger] tview(out@[k]) == apply(tview(args@[k]), unifier@),
                    decreases args.len() - i,
                {
                    out.push(args[i].subst(unifier));
                    i += 1;
                }
                proof {
                    let tv = tviews(args@, args@.len());
                    lemma_tviews(out@, out@.len());
                    lemma_tviews(args@, args@.len());
                    lemma_apply_seq(tv, unifier@, tv.len());
                    assert(tviews(out@, out@.len()) =~= apply_seq(tv, unifier@, tv.len()));
                }
                Sentence::Predicate(n.clone(), out)
            },
            Sentence::Not(a) => Sentence::Not(Box::new(a.subst(unifier))),
            Sentence::Quantified(q, a) => Sentence::Quantified(*q, Box::new(a.subst(unifier))),
            Sentence::And(a, b) => Sentence::And(Box::new(a.subst(unifier)), Box::new(b.subst(unifier))),
            Sentence::Or(a, b) => Sentence::Or(Box::new(a.subst(unifier)), Box::new(b.subst(unifier))),
            Sentence::Imply(a, b) => Sentence::Imply(Box::new(a.subst(unifier)), Box::new(b.subst(unifier))),
            Sentence::Iff(a, b) => Sentence::Iff(Box::new(a.subst(unifier)), Box::new(b.subst(unifier))),
            Sentence::Equal(a, b) => Sentence::Equal(a.subst(unifier), b.subst(unifier)),
        }
    }
}

/// How tightly a kind of sentence binds, loosest first: a sentence is put in
/// brackets inside one that binds at least as tightly.
#[derive(Clone, Copy, PartialEq, Eq, Structural)]
enum Precedence {
    Top,
    Quantified,
    IffImp,
    AndOr,
    Equal,
    Not,
    Predicate,
}

/// The rank of a precedence, `Top` lowest.
pub open spec fn rank_of(s: SentenceV) -> nat {
    match s {
        SentenceV::Quant(..) => 1,
        SentenceV::Imply(..) | SentenceV::Iff(..) => 2,
        SentenceV::And(..) | SentenceV::Or(..) => 3,
        SentenceV::Equal(..) => 4,
        SentenceV::Not(..) => 5,
        SentenceV::Pred(..) => 6,
    }
}

/// How a quantifier is written: its symbol and its variable.
pub open spec fn quantifier_text(q: Quantifier) -> Seq<char> {
    match q {
        Quantifier::Univeral(v) => seq!['∀', v],
        Quantifier::Existential(v) => seq!['∃', v],
    }
}

/// How a sentence is written inside one of rank `parent`: bracketed when it
/// binds no more tightly than its context.
pub open spec fn sentence_text(s: SentenceV, parent: nat) -> Seq<char>
    decreases s,
{
    let p = rank_of(s);
    let body = match s {
        SentenceV::Pred(n, args) => n + seq!['('] + args_text(args, args.len()) + seq![')'],
        SentenceV::Not(a) => seq!['~'] + sentence_text(*a, p),
        SentenceV::Quant(q, a) => quantifier_text(q) + seq![' '] + sentence_text(*a, p),
        SentenceV::And(a, b) => sentence_text(*a, p) + seq![' ', '&', ' '] + sentence_text(*b, p),
        SentenceV::Or(a, b) => sentence_text(*a, p) + seq![' ', '|', ' '] + sentence_text(*b, p),
        SentenceV::Imply(a, b) => sentence_text(*a, p) + seq![' ', '=', '>', ' '] + sentence_text(*b, p),
        SentenceV::Iff(a, b) => sentence_text(*a, p) + seq![' ', '<', '=', '>', ' '] + sentence_text(*b, p),
        SentenceV::Equal(a, b) => term_text(a) + seq![' ', '=', ' '] + term_text(b),
    };
    if p <= parent {
        seq!['('] + body + seq![')']
    } else {
        body
    }
}

impl Precedence {
    spec fn rank(self) -> nat {
        match self {
            Precedence::Top => 0,
            Precedence::Quantified => 1,
            Precedence::IffImp => 2,
            Precedence::AndOr => 3,
            Precedence::Equal => 4,
            Precedence::Not => 5,
            Precedence::Predicate => 6,
        }
    }

    fn level(self) -> (r: u8)
        ensures
            r == self.rank(),
    {
        match self {
            Precedence::Top => 0,
            Precedence::Quantified => 1,
            Precedence::IffImp => 2,
            Precedence::AndOr => 3,
            Precedence::Equal => 4,
            Precedence::Not => 5,
            Precedence::Predicate => 6,
        }
    }
}

impl Quantifier {
    /// How the quantifier is written, as in `∀x`.
    pub fn to_text(&self) -> (r: String)
        ensures
            r@ == quantifier_text(*self),
    {
        let mut out = String::new();
        match self {
            Quantifier::Univeral(v) => {
                push_char(&mut out, '∀');
                push_char(&mut out, *v);
            },
            Quantifier::Existential(v) => {
                push_char(&mut out, '∃');
                push_char(&mut out, *v);
            },
        }
        assert(out@ =~= quantifier_text(*self));
        out
    }
}

/// Appends the characters of `cs` to `out`.
fn push_chars(out: &mut String, cs: &[char])
    ensures
        final(out)@ == old(out)@ + cs@,
{
    let ghost start = out@;
    let mut i: usize = 0;
    while i < cs.len()
        invariant
            i <= cs@.len(),
            out@ == start + cs@.subrange(0, i as int),
        decreases cs.len() - i,
    {
        push_char(out, cs[i]);
        assert(cs@.subrange(0, i + 1) =~= cs@.subrange(0, i as int).push(cs@[i as int]));
        i += 1;
    }
    assert(cs@.subrange(0, cs@.len() as int) =~= cs@);
}

impl Sentence {
    /// The precedence of the sentence's outermost connective.
    fn precedence(&self) -> (r: Precedence)
        ensures
            r.rank() == rank_of(sview(*self)),
    {
        match self {
            Sentence::Predicate(..) => Precedence::Predicate,
            Sentence::Not(..) => Precedence::Not,
            Sentence::Quantified(..) => Precedence::Quantified,
            Sentence::And(..) | Sentence::Or(..) => Precedence::AndOr,
            Sentence::Imply(..) | Sentence::Iff(..) => Precedence::IffImp,
            Sentence::Equal(..) => Precedence::Equal,
        }
    }

    /// Appends the text of the sentence, inside a context of rank `parent`,
    /// to `out`.
    fn format(&self, parent: u8, out: &mut String)
        ensures
            final(out)@ == old(out)@ + sentence_text(sview(*self), parent as nat),
        decreases self,
    {
        let ghost start = out@;
        let p = self.precedence().level();
        let bracket = p <= parent;
        if bracket {
            push_char(out, '(');
        }
        let ghost open = out@;
        match self {
            Sentence::Predicate(n, args) => {
                push_str(out, n.as_str());
                push_char(out, '(');
                write_args(args, out);
                push_char(out, ')');
                proof {
                    lemma_tviews(args@, args@.len());
                }
            },
            Sentence::Not(a) => {
                push_char(out, '~');
                a.format(p, out);
            },
            Sentence::Quantified(q, a) => {
                let qt = q.to_text();
                push_str(out, qt.as_str());
                push_char(out, ' ');
                a.format(p, out);
            },
            Sentence::And(a, b) => {
                a.format(p, out);
                push_chars(out, &[' ', '&', ' ']);
                b.format(p, out);
            },
            Sentence::Or(a, b) => {
                a.format(p, out);
                push_chars(out, &[' ', '|', ' ']);
                b.format(p, out);
            },
            Sentence::Imply(a, b) => {
                a.format(p, out);
                push_chars(out, &[' ', '=', '>', ' ']);
                b.format(p, out);
            },
            Sentence::Iff(a, b) => {
                a.format(p, out);
                push_chars(out, &[' ', '<', '=', '>', ' ']);
                b.format(p, out);
            },
            Sentence::Equal(a, b) => {
                a.write_text(out);
                push_chars(out, &[' ', '=', ' ']);
                b.write_text(out);
            },
        }
        if bracket {
            push_char(out, ')');
        }
        assert(out@ =~= start + sentence_text(sview(*self), parent as nat));
    }

    /// How the sentence is written, as in `∀x King(x) & Greedy(x) => Evil(x)`:
    /// a part is bracketed where it binds no more tightly than its context.
    pub fn to_text(&self) -> (r: String)
        ensures
            r@ == sentence_text(sview(*self), 0),
    {
        let mut out = String::new();
        self.format(Precedence::Top.level(), &mut out);
        assert(out@ =~= sentence_text(sview(*self), 0));
        out
    }
}

} // verus!
