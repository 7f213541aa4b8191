//! Word-level and character-level n-gram language models: the tokenizer that
//! splits text into words and the n-gram histories.

pub mod ngram;
pub mod perplexity;

use vstd::prelude::*;
use crate::strings::push_char;

verus! {

/// The punctuation marks that are words of their own.
pub open spec fn is_punctuation(b: u8) -> bool {
    b == 46 || b == 44 || b == 63 || b == 33
}

/// A letter or an apostrophe: part of a word.
pub open spec fn is_word_byte(b: u8) -> bool {
    (65 <= b <= 90) || (97 <= b <= 122) || b == 39
}

/// What reading `byte` makes of the word being read, `token`: the word that
/// ends there, if any, and the word being read after it.
pub open spec fn after_byte(token: Seq<char>, byte: u8) -> (Option<Seq<char>>, Seq<char>) {
    let done = if token.len() == 0 { None } else { Some(token) };
    if is_word_byte(byte) {
        (None, token.push(byte as char))
    } else if is_punctuation(byte) {
        (done, seq![byte as char])
    } else {
        (done, Seq::empty())
    }
}

/// Each of the marks `.`, `,`, `?` and `!` is a word of its own: reading
/// one ends the word being read, if any, and starts a word that is just the
/// mark.
pub proof fn law_marks_stand_alone(token: Seq<char>)
    ensures
        after_byte(token, 33) == ((if token.len() == 0 { None } else { Some(token) }), seq!['!']),
        after_byte(token, 44) == ((if token.len() == 0 { None } else { Some(token) }), seq![',']),
        after_byte(token, 46) == ((if token.len() == 0 { None } else { Some(token) }), seq!['.']),
        after_byte(token, 63) == ((if token.len() == 0 { None } else { Some(token) }), seq!['?']),
{
    assert(33u8 as char == '!');
    assert(44u8 as char == ',');
    assert(46u8 as char == '.');
    assert(63u8 as char == '?');
}

/// A letter or an apostrophe extends the word being read and ends none.
pub proof fn law_letters_extend(token: Seq<char>, byte: u8)
    requires
        (65 <= byte <= 90) || (97 <= byte <= 122) || byte == 39,
    ensures
        after_byte(token, byte) == (None::<Seq<char>>, token.push(byte as char)),
{
}

/// Any other byte (a space, a digit, a dash, ...) ends the word being read
/// and starts none.
pub proof fn law_separators(token: Seq<char>, byte: u8)
    requires
        !((65 <= byte <= 90) || (97 <= byte <= 122) || byte == 39),
        byte != 33 && byte != 44 && byte != 46 && byte != 63,
    ensures
        after_byte(token, byte) == ((if token.len() == 0 { None } else { Some(token) }), Seq::<char>::empty()),
{
}

/// Splits the bytes of a text into words: runs of letters and apostrophes,
/// and the punctuation marks `.`, `,`, `?` and `!` on their own. Other bytes
/// separate words. The reader is kept alongside for whoever feeds the bytes.
pub struct Tokenizer<R> {
    token: String,
    reader: R,
}

impl<R> Tokenizer<R> {
    /// The word being read.
    pub closed spec fn pending(&self) -> Seq<char> {
        self.token@
    }

    /// The reader the bytes come from.
    pub closed spec fn source(&self) -> R {
        self.reader
    }

    /// A tokenizer for the text of `reader`.
    pub fn new(reader: R) -> (r: Self)
        ensures
            r.pending() == Seq::<char>::empty(),
            r.source() == reader,
    {
        Tokenizer { token: String::new(), reader }
    }

    /// The reader the bytes come from.
    pub fn reader_mut(&mut self) -> (r: &mut R)
        ensures
            *r == old(self).source(),
            final(self).pending() == old(self).pending(),
            final(self).source() == *final(r),
    {
        &mut self.reader
    }

    /// Ends the word being read: returns it, or `None` when it is empty.
    pub fn emit(&mut self) -> (r: Option<String>)
        ensures
            final(self).pending() == Seq::<char>::empty(),
            old(self).pending().len() == 0 ==> r is None,
            old(self).pending().len() > 0 ==> (r matches Some(w) && w@ == old(self).pending()),
    {
        if self.token.as_str().is_empty() {
            None
        } else {
            let mut word = String::new();
            std::mem::swap(&mut self.token, &mut word);
            Some(word)
        }
    }

    /// Reads one byte of the text: a letter or apostrophe extends the word
    /// being read; a punctuation mark ends it and starts a word of its own;
    /// any other byte ends it. Returns the word that ended, if any.
    pub fn step(&mut self, byte: u8) -> (r: Option<String>)
        ensures
            final(self).pending() == after_byte(old(self).pending(), byte).1,
            (r is None) == (after_byte(old(self).pending(), byte).0 is None),
            r matches Some(w) ==> after_byte(old(self).pending(), byte).0 == Some(w@),
    {
        let letter = (65 <= byte && byte <= 90) || (97 <= byte && byte <= 122) || byte == 39;
        let mark = byte == 46 || byte == 44 || byte == 63 || byte == 33;
        if letter {
            push_char(&mut self.token, byte as char);
            None
        } else if mark {
            let word = self.emit();
            push_char(&mut self.token, byte as char);
            proof {
                assert(self.token@ =~= seq![byte as char]);
            }
            word
        } else {
            self.emit()
        }
    }
}

/// A tokenizer for the text of `reader`.
pub fn tokenize<R>(reader: R) -> (r: Tokenizer<R>)
    ensures
        r.pending() == Seq::<char>::empty(),
{
    Tokenizer::new(reader)
}

/// Whether `word` is a word rather than a punctuation mark: it does not
/// start with one.
pub fn is_word(word: &str) -> (r: bool)
    ensures
        r == (word@.len() == 0 || !(word@[0] == '.' || word@[0] == ',' || word@[0] == '?' || word@[0] == '!')),
{
    if word.unicode_len() == 0 {
        true
    } else {
        let c = word.get_char(0);
        !(c == '.' || c == ',' || c == '?' || c == '!')
    }
}

/// Whether a token is a word rather than a punctuation mark: it does not
/// start with one.
pub open spec fn word_spec(w: Seq<char>) -> bool {
    w.len() == 0 || !(w[0] == '.' || w[0] == ',' || w[0] == '?' || w[0] == '!')
}

/// The words among the tokens, in order: the tokens without the
/// punctuation marks.
pub open spec fn only_words(tokens: Seq<Seq<char>>) -> Seq<Seq<char>>
    decreases tokens.len(),
{
    if tokens.len() == 0 {
        Seq::empty()
    } else {
        let rest = only_words(tokens.drop_last());
        if word_spec(tokens.last()) {
            rest.push(tokens.last())
        } else {
            rest
        }
    }
}

/// The text of each string.
pub open spec fn texts(s: Seq<String>) -> Seq<Seq<char>> {
    s.map_values(|w: String| w@)
}

/// The words among the tokens of a text, in order: the tokens that are not
/// punctuation marks.
pub fn words(tokens: &Vec<String>) -> (r: Vec<String>)
    ensures
        texts(r@) == only_words(texts(tokens@)),
{
    let mut r: Vec<String> = Vec::new();
    let mut i: usize = 0;
    while i < tokens.len()
        invariant
            i <= tokens@.len(),
            texts(r@) == only_words(texts(tokens@).take(i as int)),
        decreases tokens.len() - i,
    {
        let keep = is_word(tokens[i].as_str());
        let ghost before = r@;
        proof {
            assert(texts(tokens@).take(i + 1).drop_last() =~= texts(tokens@).take(i as int));
            assert(texts(tokens@).take(i + 1).last() == tokens@[i as int]@);
        }
        if keep {
            r.push(tokens[i].clone());
            proof {
                assert(texts(r@) =~= texts(before).push(tokens@[i as int]@));
            }
        }
        i += 1;
    }
    proof {
        assert(texts(tokens@).take(i as int) =~= texts(tokens@));
    }
    r
}

} // verus!
