//! Reading a term from its text, as in `Knows(Father(y),y)`.

use vstd::prelude::*;
use super::term::{Term, TermV, tview, tviews, lemma_tviews};
use crate::strings::push_char;

verus! {

/// A letter of the English alphabet.
pub open spec fn is_letter(c: char) -> bool {
    ('a' <= c && c <= 'z') || ('A' <= c && c <= 'Z')
}

/// Where the run of letters that starts at `i` ends.
pub open spec fn token_end(s: Seq<char>, i: int) -> int
    decreases s.len() - i,
{
    if i < 0 || i >= s.len() || !is_letter(s[i]) {
        i
    } else {
        token_end(s, i + 1)
    }
}

/// The term written at `i` and where its text ends, or `None` when the text
/// there is no term. A run of letters is a variable, by its first letter,
/// when it starts with a small letter; a function when a `(` follows it;
/// a constant otherwise. Text after the term is not read.
pub open spec fn term_at(s: Seq<char>, i: int) -> Option<(TermV, int)>
    decreases s.len() - i, 1nat,
{
    let e = token_end(s, i);
    let tok = s.subrange(i, e);
    if 0 <= i < e && 'a' <= s[i] && s[i] <= 'z' {
        Some((TermV::Var(s[i]), e))
    } else if i <= e < s.len() && s[e] == '(' {
        match items_at(s, e + 1) {
            Some((args, j)) => Some((TermV::Fun(tok, args), j)),
            None => None,
        }
    } else {
        Some((TermV::Cst(tok), e))
    }
}

/// The arguments written from `i` on, separated by `,` and closed by `)`,
/// and where the `)` ends; `None` when the text there is no such list.
pub open spec fn items_at(s: Seq<char>, i: int) -> Option<(Seq<TermV>, int)>
    decreases s.len() - i, 2nat,
{
    if i < 0 || i > s.len() {
        None
    } else {
        match term_at(s, i) {
            Some((t, j)) => if 0 <= j < s.len() && s[j] == ')' {
                Some((seq![t], j + 1))
            } else if i <= j < s.len() && s[j] == ',' {
                match items_at(s, j + 1) {
                    Some((ts, k)) => Some((seq![t] + ts, k)),
                    None => None,
                }
            } else {
                None
            },
            None => None,
        }
    }
}

proof fn lemma_token_end(s: Seq<char>, i: int)
    requires
        0 <= i <= s.len(),
    ensures
        i <= token_end(s, i) <= s.len(),
        forall|k: int| i <= k < token_end(s, i) ==> is_letter(#[trigger] s[k]),
        token_end(s, i) < s.len() ==> !is_letter(s[token_end(s, i)]),
    decreases s.len() - i,
{
    if i < s.len() && is_letter(s[i]) {
        lemma_token_end(s, i + 1);
    }
}

proof fn lemma_term_end(s: Seq<char>, i: int)
    requires
        0 <= i <= s.len(),
    ensures
        term_at(s, i) matches Some((_, j)) ==> i <= j <= s.len(),
    decreases s.len() - i, 1nat,
{
    lemma_token_end(s, i);
    let e = token_end(s, i);
    if !(0 <= i < e && 'a' <= s[i] && s[i] <= 'z') && i <= e < s.len() && s[e] == '(' {
        lemma_items_end(s, e + 1);
    }
}

proof fn lemma_items_end(s: Seq<char>, i: int)
    requires
        0 <= i <= s.len(),
    ensures
        items_at(s, i) matches Some((_, j)) ==> i < j <= s.len(),
    decreases s.len() - i, 2nat,
{
    lemma_term_end(s, i);
    if let Some((t, j)) = term_at(s, i) {
        if !(0 <= j < s.len() && s[j] == ')') && i <= j < s.len() && s[j] == ',' {
            lemma_items_end(s, j + 1);
        }
    }
}

/// Where the run of letters that starts at `i` ends.
fn find_token_end(cs: &Vec<char>, i: usize) -> (e: usize)
    requires
        i <= cs@.len(),
    ensures
        e == token_end(cs@, i as int),
{
    proof {
        lemma_token_end(cs@, i as int);
    }
    let mut e = i;
    while e < cs.len() && (('a' <= cs[e] && cs[e] <= 'z') || ('A' <= cs[e] && cs[e] <= 'Z'))
        invariant
            i <= e <= cs@.len(),
            token_end(cs@, e as int) == token_end(cs@, i as int),
        decreases cs.len() - e,
    {
        e += 1;
    }
    e
}

/// The text of the characters from `i` up to `e`.
fn text_between(cs: &Vec<char>, i: usize, e: usize) -> (r: String)
    requires
        i <= e <= cs@.len(),
    ensures
        r@ == cs@.subrange(i as int, e as int),
{
    let mut out = String::new();
    let mut k = i;
    while k < e
        invariant
            i <= k <= e,
            e <= cs@.len(),
            out@ == cs@.subrange(i as int, k as int),
        decreases e - k,
    {
        push_char(&mut out, cs[k]);
        assert(cs@.subrange(i as int, k + 1) =~= cs@.subrange(i as int, k as int).push(cs@[k as int]));
        k += 1;
    }
    out
}

/// The term written at `i` and where its text ends.
fn parse_at(cs: &Vec<char>, i: usize) -> (r: Option<(Term, usize)>)
    requires
        i <= cs@.len(),
    ensures
        match r {
            Some((t, j)) => term_at(cs@, i as int) == Some((tview(t), j as int)),
            None => term_at(cs@, i as int) is None,
        },
    decreases cs@.len() - i, 1nat,
{
    proof {
        lemma_token_end(cs@, i as int);
    }
    let e = find_token_end(cs, i);
    if i < e && 'a' <= cs[i] && cs[i] <= 'z' {
        return Some((Term::Variable(cs[i]), e));
    }
    let name = text_between(cs, i, e);
    if e < cs.len() && cs[e] == '(' {
        match parse_items(cs, e + 1) {
            Some((args, j)) => {
                proof {
                    lemma_tviews(args@, args@.len());
                }
                Some((Term::Function(name, args), j))
            },
            None => None,
        }
    } else {
        Some((Term::Constant(name), e))
    }
}

/// The arguments written from `i` on up to the closing `)`, and where the
/// `)` ends.
fn parse_items(cs: &Vec<char>, i: usize) -> (r: Option<(Vec<Term>, usize)>)
    requires
        i <= cs@.len(),
    ensures
        match r {
            Some((ts, j)) => items_at(cs@, i as int) == Some((tviews(ts@, ts@.len()), j as int)),
            None => items_at(cs@, i as int) is None,
        },
    decreases cs@.len() - i, 2nat,
{
    proof {
        lemma_term_end(cs@, i as int);
    }
    match parse_at(cs, i) {
        Some((t, j)) => {
            if j < cs.len() && cs[j] == ')' {
                let mut ts: Vec<Term> = Vec::new();
                ts.push(t);
                proof {
                    lemma_tviews(ts@, ts@.len());
                    assert(tviews(ts@, ts@.len()) =~= seq![tview(ts@[0])]);
                }
                Some((ts, j + 1))
            } else if j < cs.len() && cs[j] == ',' {
                match parse_items(cs, j + 1) {
                    Some((rest, k)) => {
                        let ghost tv = tview(t);
                        let ghost rv = tviews(rest@, rest@.len());
                        let ghost old_rest = rest@;
                        proof {
                            lemma_tviews(rest@, rest@.len());
                        }
                        let mut ts: Vec<Term> = Vec::new();
                        ts.push(t);
                        let mut rest = rest;
                        ts.append(&mut rest);
                        proof {
                            lemma_tviews(ts@, ts@.len());
                            assert(ts@ == seq![ts@[0]] + old_rest);
                            assert forall|m: int| 0 <= m < ts@.len() implies #[trigger] tviews(ts@, ts@.len())[m]
                                == (seq![tv] + rv)[m] by {
                                if m > 0 {
                                    assert(ts@[m] == old_rest[m - 1]);
                                }
                            }
                            assert(tviews(ts@, ts@.len()) =~= seq![tv] + rv);
                        }
                        Some((ts, k))
                    },
                    None => None,
                }
            } else {
                None
            }
        },
        None => None,
    }
}

/// The characters of `s`.
fn chars_of(s: &str) -> (r: Vec<char>)
    ensures
        r@ == s@,
{
    let n = s.unicode_len();
    let mut cs: Vec<char> = Vec::new();
    let mut i: usize = 0;
    while i < n
        invariant
            i <= n,
            n == s@.len(),
            cs@ == s@.subrange(0, i as int),
        decreases n - i,
    {
        cs.push(s.get_char(i));
        assert(s@.subrange(0, i + 1) =~= s@.subrange(0, i as int).push(s@[i as int]));
        i += 1;
    }
    assert(s@.subrange(0, n as int) =~= s@);
    cs
}

impl Term {
    /// The term whose text starts `s`, as in `Older(Father(x),John)`: a
    /// variable is a small letter, constants and functions are named by
    /// runs of letters, and a function's arguments stand in brackets,
    /// separated by commas without spaces.
    pub fn parse(s: &str) -> (r: Term)
        requires
            term_at(s@, 0) is Some,
        ensures
            tview(r) == term_at(s@, 0).unwrap().0,
    {
        let cs = chars_of(s);
        match parse_at(&cs, 0) {
            Some((t, _)) => t,
            None => Term::Constant(String::new()),
        }
    }

    /// The term whose text starts `s`, or `None` when no term starts it.
    pub fn try_parse(s: &str) -> (r: Option<Term>)
        ensures
            r is None <==> term_at(s@, 0) is None,
            r matches Some(t) ==> tview(t) == term_at(s@, 0).unwrap().0,
    {
        let cs = chars_of(s);
        match parse_at(&cs, 0) {
            Some((t, _)) => Some(t),
            None => None,
        }
    }
}

} // verus!
