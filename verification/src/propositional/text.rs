//! The written form of a propositional sentence.

use vstd::prelude::*;
use super::expr::{Expr, Symbol};
use crate::strings::push_char;

verus! {

/// How tightly a sentence binds: literals most, then negations, then
/// conjunctions and disjunctions, then implications and equivalences.
pub open spec fn binding(e: Expr) -> int {
    match e {
        Expr::True | Expr::False | Expr::Var(_) => 4,
        Expr::Not(_) => 3,
        Expr::And(..) | Expr::Or(..) => 2,
        Expr::Imply(..) | Expr::Iff(..) => 1,
    }
}

/// The code of the letter that stands for symbol `i`: `A` for the first.
pub open spec fn symbol_code(i: Symbol) -> int {
    65 + i
}

/// A code that is a character: at most `0x10FFFF` and not a surrogate.
pub open spec fn is_char_code(n: int) -> bool {
    (0 <= n < 0xD800) || (0xE000 <= n <= 0x10FFFF)
}

/// Every symbol of the sentence has a letter.
pub open spec fn symbols_written(e: Expr) -> bool
    decreases e,
{
    match e {
        Expr::True | Expr::False => true,
        Expr::Var(i) => is_char_code(symbol_code(i)),
        Expr::Not(a) => symbols_written(*a),
        Expr::And(l, r) | Expr::Or(l, r) | Expr::Imply(l, r) | Expr::Iff(l, r) => symbols_written(*l)
            && symbols_written(*r),
    }
}

/// Two sides joined by an operator with a space on each side.
pub open spec fn joined(l: Seq<char>, op: Seq<char>, r: Seq<char>) -> Seq<char> {
    l + seq![' '] + op + seq![' '] + r
}

/// The sentence written out inside a context that binds as tightly as
/// `parent`: in brackets when the sentence binds no tighter than that.
pub open spec fn expr_text(e: Expr, parent: int) -> Seq<char>
    decreases e,
{
    let body = match e {
        Expr::True => seq!['T', 'r', 'u', 'e'],
        Expr::False => seq!['F', 'a', 'l', 's', 'e'],
        Expr::Var(i) => seq![symbol_code(i) as char],
        Expr::Not(a) => seq!['~'] + expr_text(*a, 3),
        Expr::And(l, r) => joined(expr_text(*l, 2), seq!['&'], expr_text(*r, 2)),
        Expr::Or(l, r) => joined(expr_text(*l, 2), seq!['|'], expr_text(*r, 2)),
        Expr::Imply(l, r) => joined(expr_text(*l, 1), seq!['=', '>'], expr_text(*r, 1)),
        Expr::Iff(l, r) => joined(expr_text(*l, 1), seq!['<', '=', '>'], expr_text(*r, 1)),
    };
    if binding(e) <= parent {
        seq!['('] + body + seq![')']
    } else {
        body
    }
}

/// `char::from_u32`: the character with code `code`, or `None` when the
/// code is no character (above `0x10FFFF` or a surrogate), as its
/// documentation says.
#[verifier::external_body]
fn char_from_code(code: u32) -> (r: Option<char>)
    ensures
        r matches Some(c) ==> c as int == code,
        r is None <==> !is_char_code(code as int),
{
    char::from_u32(code)
}

/// Appends each character of `t`.
fn push_chars(out: &mut String, t: &[char])
    ensures
        final(out)@ == old(out)@ + t@,
{
    let mut i: usize = 0;
    while i < t.len()
        invariant
            i <= t@.len(),
            out@ == old(out)@ + t@.take(i as int),
        decreases t.len() - i,
    {
        push_char(out, t[i]);
        proof {
            assert(t@.take(i + 1) =~= t@.take(i as int).push(t@[i as int]));
        }
        i += 1;
    }
    proof {
        assert(t@.take(i as int) =~= t@);
    }
}

impl Expr {
    /// Appends the sentence written out inside a context that binds as
    /// tightly as `parent`.
    fn write_text(&self, parent: u8, out: &mut String)
        requires
            symbols_written(*self),
            parent <= 4,
        ensures
            final(out)@ == old(out)@ + expr_text(*self, parent as int),
        decreases self,
    {
        let own: u8 = match self {
            Expr::True | Expr::False | Expr::Var(_) => 4,
            Expr::Not(_) => 3,
            Expr::And(..) | Expr::Or(..) => 2,
            Expr::Imply(..) | Expr::Iff(..) => 1,
        };
        let ghost start = out@;
        if own <= parent {
            push_char(out, '(');
        }
        let ghost opened = out@;
        match self {
            Expr::True => push_chars(out, &['T', 'r', 'u', 'e']),
            Expr::False => push_chars(out, &['F', 'a', 'l', 's', 'e']),
            Expr::Var(i) => {
                match char_from_code((*i + 65) as u32) {
                    Some(c) => push_char(out, c),
                    None => {},
                }
            },
            Expr::Not(a) => {
                push_char(out, '~');
                a.write_text(3, out);
            },
            Expr::And(l, r) => {
                l.write_text(2, out);
                push_chars(out, &[' ', '&', ' ']);
                r.write_text(2, out);
            },
            Expr::Or(l, r) => {
                l.write_text(2, out);
                push_chars(out, &[' ', '|', ' ']);
                r.write_text(2, out);
            },
            Expr::Imply(l, r) => {
                l.write_text(1, out);
                push_chars(out, &[' ', '=', '>', ' ']);
                r.write_text(1, out);
            },
            Expr::Iff(l, r) => {
                l.write_text(1, out);
                push_chars(out, &[' ', '<', '=', '>', ' ']);
                r.write_text(1, out);
            },
        }
        if own <= parent {
            push_char(out, ')');
        }
        proof {
            assert(own == binding(*self));
        }
    }

    /// The sentence written out: `True`, `False`, a letter for each symbol
    /// (`A` for the first), `~` for negation and `&`, `|`, `=>`, `<=>`
    /// between the sides, with brackets where a part binds no tighter than
    /// the operator around it.
    pub fn to_text(&self) -> (r: String)
        requires
            symbols_written(*self),
        ensures
            r@ == expr_text(*self, 0),
    {
        let mut r = String::new();
        self.write_text(0, &mut r);
        proof {
            assert(r@ =~= expr_text(*self, 0));
        }
        r
    }
}

} // verus!
