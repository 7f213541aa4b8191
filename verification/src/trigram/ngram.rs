use vstd::prelude::*;
use indexmap::{IndexMap, IndexSet};
use random_fast_rng::{local_rng, Random};
use std::marker::PhantomData;

verus! {

/// The number of a word in the dictionary.
pub type Index = usize;

/// A word of the text: known to the dictionary, or unknown.
#[derive(Debug, Clone, Copy, PartialEq, Eq, Structural, Hash)]
pub enum Token {
    Unk,
    Word(Index),
}

impl Default for Token {
    fn default() -> (r: Self)
        ensures
            r == Token::Unk,
    {
        Token::Unk
    }
}

/// The history after `token` is read: the words looked back at move on by
/// one.
pub open spec fn shift_tokens(key: Seq<Token>, token: Token) -> Seq<Token> {
    if key.len() == 0 {
        key
    } else {
        key.drop_first().push(token)
    }
}

/// The words a word-level model looks back at.
pub trait NGram: Sized {
    /// The number of words looked back at.
    spec fn order() -> nat;

    /// The words looked back at, oldest first.
    spec fn tokens_spec(&self) -> Seq<Token>;

    /// As many words as the order.
    proof fn lemma_tokens_len(&self)
        ensures
            self.tokens_spec().len() == Self::order(),
    ;

    /// The history at the start of a text: unknown words only.
    fn start() -> (r: Self)
        ensures
            forall|i: int| 0 <= i < r.tokens_spec().len() ==> #[trigger] r.tokens_spec()[i] == Token::Unk,
    ;

    /// The number of words looked back at.
    fn len() -> (r: usize)
        ensures
            r == Self::order(),
    ;

    /// Moves the history on by one word.
    fn update(&mut self, token: Token)
        ensures
            final(self).tokens_spec() == shift_tokens(old(self).tokens_spec(), token),
    ;

    /// The words looked back at.
    fn tokens(&self) -> (r: Vec<Token>)
        ensures
            r@ == self.tokens_spec(),
    ;

    /// The history that looks back at `tokens`.
    fn from_tokens(tokens: &Vec<Token>) -> (r: Self)
        requires
            tokens@.len() == Self::order(),
        ensures
            r.tokens_spec() == tokens@,
    ;
}

/// A unigram model looks back at no word.
pub type Unigram = ();

/// A bigram model looks back at one word.
pub type Bigram = Token;

/// A trigram model looks back at two words.
pub type Trigram = [Token; 2];

impl NGram for () {
    open spec fn order() -> nat {
        0
    }

    open spec fn tokens_spec(&self) -> Seq<Token> {
        Seq::empty()
    }

    proof fn lemma_tokens_len(&self) {
    }

    fn start() -> (r: Self) {
    }

    fn len() -> (r: usize)
        ensures
            r == 0,
    {
        0
    }

    fn update(&mut self, token: Token) {
    }

    fn tokens(&self) -> (r: Vec<Token>) {
        Vec::new()
    }

    fn from_tokens(tokens: &Vec<Token>) -> (r: Self) {
    }
}

impl NGram for Token {
    open spec fn order() -> nat {
        1
    }

    open spec fn tokens_spec(&self) -> Seq<Token> {
        seq![*self]
    }

    proof fn lemma_tokens_len(&self) {
    }

    fn start() -> (r: Self)
        ensures
            r == Token::Unk,
    {
        Token::Unk
    }

    fn len() -> (r: usize)
        ensures
            r == 1,
    {
        1
    }

    fn update(&mut self, token: Token)
        ensures
            *final(self) == token,
    {
        *self = token;
        assert(seq![token] =~= shift_tokens(seq![*old(self)], token));
    }

    fn tokens(&self) -> (r: Vec<Token>) {
        let r = vec![*self];
        assert(r@ =~= seq![*self]);
        r
    }

    fn from_tokens(tokens: &Vec<Token>) -> (r: Self) {
        let r = tokens[0];
        assert(seq![r] =~= tokens@);
        r
    }
}

impl NGram for [Token; 2] {
    open spec fn order() -> nat {
        2
    }

    open spec fn tokens_spec(&self) -> Seq<Token> {
        self@
    }

    proof fn lemma_tokens_len(&self) {
    }

    fn start() -> (r: Self)
        ensures
            r@ == seq![Token::Unk, Token::Unk],
    {
        let r = [Token::Unk, Token::Unk];
        assert(r@ =~= seq![Token::Unk, Token::Unk]);
        r
    }

    fn len() -> (r: usize)
        ensures
            r == 2,
    {
        2
    }

    fn update(&mut self, token: Token)
        ensures
            final(self)@ == seq![old(self)@[1], token],
    {
        let last = self[1];
        *self = [last, token];
        assert(final(self)@ =~= seq![old(self)@[1], token]);
        assert(shift_tokens(old(self)@, token) =~= seq![old(self)@[1], token]);
    }

    fn tokens(&self) -> (r: Vec<Token>) {
        let r = vec![self[0], self[1]];
        assert(r@ =~= self@);
        r
    }

    fn from_tokens(tokens: &Vec<Token>) -> (r: Self) {
        let r = [tokens[0], tokens[1]];
        assert(r@ =~= tokens@);
        r
    }
}

#[verifier::external_type_specification]
#[verifier::external_body]
#[verifier::reject_recursive_types(T)]
#[verifier::reject_recursive_types(S)]
pub struct ExIndexSet<T, S>(IndexSet<T, S>);

#[verifier::external_type_specification]
#[verifier::external_body]
#[verifier::reject_recursive_types(K)]
#[verifier::reject_recursive_types(V)]
#[verifier::reject_recursive_types(S)]
pub struct ExIndexMap<K, V, S>(IndexMap<K, V, S>);

/// The words of the set, in the order they were inserted.
pub uninterp spec fn words_of(set: IndexSet<String>) -> Seq<Seq<char>>;

/// The entries of the map, in the order their keys were inserted: the words
/// of a history and the numbers of the words that came after it.
pub uninterp spec fn entries_of(map: IndexMap<Vec<Token>, Vec<Index>>) -> Seq<(Seq<Token>, Seq<Index>)>;

/// `IndexSet::new`: a set without words.
#[verifier::external_body]
fn words_new() -> (r: IndexSet<String>)
    ensures
        words_of(r) == Seq::<Seq<char>>::empty(),
{
    IndexSet::new()
}

/// `IndexSet::insert_full`: a word not yet in the set is appended, and its
/// index and `true` come back; a word already there leaves the set as it is,
/// and its index and `false` come back.
#[verifier::external_body]
fn words_insert(set: &mut IndexSet<String>, word: String) -> (r: (usize, bool))
    ensures
        r.1 == !words_of(*old(set)).contains(word@),
        words_of(*final(set)) == if r.1 {
            words_of(*old(set)).push(word@)
        } else {
            words_of(*old(set))
        },
        r.0 < words_of(*final(set)).len(),
        words_of(*final(set))[r.0 as int] == word@,
{
    set.insert_full(word)
}

/// `IndexSet::get_full`: the index of the word, if it is in the set.
#[verifier::external_body]
fn words_find(set: &IndexSet<String>, word: &str) -> (r: Option<usize>)
    ensures
        r matches Some(i) ==> i < words_of(*set).len() && words_of(*set)[i as int] == word@,
        r is None ==> !words_of(*set).contains(word@),
{
    set.get_full(word).map(|(i, _)| i)
}

/// `IndexSet::get_index`: the word at `i`, if `i` is below the number of
/// words.
#[verifier::external_body]
fn words_at(set: &IndexSet<String>, i: usize) -> (r: Option<&String>)
    ensures
        r is Some <==> i < words_of(*set).len(),
        r matches Some(w) ==> w@ == words_of(*set)[i as int],
{
    set.get_index(i)
}

/// `IndexMap::new`: a map without entries.
#[verifier::external_body]
fn entries_new() -> (r: IndexMap<Vec<Token>, Vec<Index>>)
    ensures
        entries_of(r) == Seq::<(Seq<Token>, Seq<Index>)>::empty(),
{
    IndexMap::new()
}

/// `IndexMap::len`: the number of entries.
#[verifier::external_body]
fn entries_len(map: &IndexMap<Vec<Token>, Vec<Index>>) -> (r: usize)
    ensures
        r == entries_of(*map).len(),
{
    map.len()
}

/// `IndexMap::get_index_of`: the index of the entry of `key`, if there is
/// one.
#[verifier::external_body]
fn entries_find(map: &IndexMap<Vec<Token>, Vec<Index>>, key: &Vec<Token>) -> (r: Option<usize>)
    ensures
        r matches Some(i) ==> i < entries_of(*map).len() && entries_of(*map)[i as int].0 == key@,
        r is None ==> forall|i: int| 0 <= i < entries_of(*map).len() ==> entries_of(*map)[i].0 != key@,
{
    map.get_index_of(key)
}

/// `IndexMap::insert` of a key without an entry: the entry is appended.
#[verifier::external_body]
fn entries_insert(map: &mut IndexMap<Vec<Token>, Vec<Index>>, key: Vec<Token>, value: Vec<Index>)
    requires
        forall|i: int| 0 <= i < entries_of(*old(map)).len() ==> entries_of(*old(map))[i].0 != key@,
    ensures
        entries_of(*final(map)) == entries_of(*old(map)).push((key@, value@)),
{
    map.insert(key, value);
}

/// Mutable indexing of `IndexMap` by position, then `Vec::push`: `x` is
/// appended to the value of entry `i`.
#[verifier::external_body]
fn entries_push_at(map: &mut IndexMap<Vec<Token>, Vec<Index>>, i: usize, x: Index)
    requires
        i < entries_of(*old(map)).len(),
    ensures
        entries_of(*final(map)) == entries_of(*old(map)).update(
            i as int,
            (entries_of(*old(map))[i as int].0, entries_of(*old(map))[i as int].1.push(x)),
        ),
{
    map[i].push(x);
}

/// `IndexMap::get_index`: the key and value of entry `i`, if `i` is below the
/// number of entries.
#[verifier::external_body]
fn entries_at(map: &IndexMap<Vec<Token>, Vec<Index>>, i: usize) -> (r: Option<(&Vec<Token>, &Vec<Index>)>)
    ensures
        r is Some <==> i < entries_of(*map).len(),
        r matches Some((k, v)) ==> k@ == entries_of(*map)[i as int].0 && v@ == entries_of(*map)[i as int].1,
{
    map.get_index(i)
}

/// `Random::get_usize` on `random_fast_rng::local_rng()`: a random number;
/// nothing is promised of its value.
#[verifier::external_body]
fn random_usize() -> usize {
    local_rng().get_usize()
}

/// The position of the first `w` among the words, or the number of words.
pub open spec fn word_index(ws: Seq<Seq<char>>, w: Seq<char>) -> int
    decreases ws.len(),
{
    if ws.len() == 0 {
        0
    } else if ws[0] == w {
        0
    } else {
        1 + word_index(ws.drop_first(), w)
    }
}

/// The position of the first entry of history `key`, or the number of
/// entries.
pub open spec fn entry_index(es: Seq<(Seq<Token>, Seq<Index>)>, key: Seq<Token>) -> int
    decreases es.len(),
{
    if es.len() == 0 {
        0
    } else if es[0].0 == key {
        0
    } else {
        1 + entry_index(es.drop_first(), key)
    }
}

/// The words after `w` is met: unchanged if it is known, else with `w` at
/// the end.
pub open spec fn with_word(ws: Seq<Seq<char>>, w: Seq<char>) -> Seq<Seq<char>> {
    if ws.contains(w) {
        ws
    } else {
        ws.push(w)
    }
}

/// The entries after word `x` came after history `key`: appended to the
/// entry of `key`, or a new entry at the end.
pub open spec fn recorded(es: Seq<(Seq<Token>, Seq<Index>)>, key: Seq<Token>, x: Index) -> Seq<(Seq<Token>, Seq<Index>)> {
    let i = entry_index(es, key);
    if i < es.len() {
        es.update(i, (key, es[i].1.push(x)))
    } else {
        es.push((key, seq![x]))
    }
}

/// Words each once; each entry a history of `order` words, none twice, and
/// at least one word after it, each a known word.
pub open spec fn chain_ok(ws: Seq<Seq<char>>, es: Seq<(Seq<Token>, Seq<Index>)>, order: nat) -> bool {
    &&& ws.no_duplicates()
    &&& forall|i: int, k: int| 0 <= i < k < es.len() ==> es[i].0 != es[k].0
    &&& forall|i: int| 0 <= i < es.len() ==> (#[trigger] es[i]).0.len() == order && es[i].1.len() > 0
    &&& forall|i: int, j: int| 0 <= i < es.len() && 0 <= j < es[i].1.len() ==> es[i].1[j] < ws.len()
}

/// A word `word` and the history `next` after it may be generated from
/// history `h`: a word that came after `h` when `h` has an entry, else after
/// the history of some entry, and that history moved on by the word.
pub open spec fn may_generate(
    ws: Seq<Seq<char>>,
    es: Seq<(Seq<Token>, Seq<Index>)>,
    h: Seq<Token>,
    word: Seq<char>,
    next: Seq<Token>,
) -> bool {
    exists|i: int, j: int|
        #![trigger es[i].1[j]]
        0 <= i < es.len() && 0 <= j < es[i].1.len() && (entry_index(es, h) < es.len() ==> i == entry_index(es, h)) && word
            == ws[es[i].1[j] as int] && next == shift_tokens(es[i].0, Token::Word(es[i].1[j]))
}

/// The entry a draw settles on: that of `h` if it has one, else the one at
/// place `pick` modulo the number of entries.
pub open spec fn chosen_entry(es: Seq<(Seq<Token>, Seq<Index>)>, h: Seq<Token>, pick: int) -> int {
    if entry_index(es, h) < es.len() {
        entry_index(es, h)
    } else {
        pick % (es.len() as int)
    }
}

/// The word after `h` for the draws `pick_entry` and `pick_word`, and the
/// history of the chosen entry moved on by it.
pub open spec fn generated(
    ws: Seq<Seq<char>>,
    es: Seq<(Seq<Token>, Seq<Index>)>,
    h: Seq<Token>,
    pick_entry: int,
    pick_word: int,
) -> (Seq<char>, Seq<Token>) {
    let i = chosen_entry(es, h, pick_entry);
    let index = es[i].1[pick_word % (es[i].1.len() as int)];
    (ws[index as int], shift_tokens(es[i].0, Token::Word(index)))
}

/// What the draws give is a word that may be generated.
proof fn lemma_generated_may(
    ws: Seq<Seq<char>>,
    es: Seq<(Seq<Token>, Seq<Index>)>,
    h: Seq<Token>,
    pick_entry: int,
    pick_word: int,
)
    requires
        es.len() > 0,
        forall|i: int| 0 <= i < es.len() ==> (#[trigger] es[i]).1.len() > 0,
        pick_entry >= 0,
        pick_word >= 0,
    ensures
        may_generate(ws, es, h, generated(ws, es, h, pick_entry, pick_word).0, generated(ws, es, h, pick_entry, pick_word).1),
{
    lemma_entry_index(es, h);
    let i = chosen_entry(es, h, pick_entry);
    assert(0 <= i < es.len());
    assert(es[i].1.len() > 0);
    let j = pick_word % (es[i].1.len() as int);
    assert(0 <= j < es[i].1.len());
    assert(es[i].1[j] == es[i].1[j]);
}

/// The word at place `pick` modulo the number of words.
pub fn successor(succs: &Vec<Index>, pick: usize) -> (r: Index)
    requires
        succs@.len() > 0,
    ensures
        r == succs@[(pick as int) % (succs@.len() as int)],
{
    succs[pick % succs.len()]
}

proof fn lemma_word_index(ws: Seq<Seq<char>>, w: Seq<char>)
    ensures
        0 <= word_index(ws, w) <= ws.len(),
        word_index(ws, w) < ws.len() <==> ws.contains(w),
        word_index(ws, w) < ws.len() ==> ws[word_index(ws, w)] == w,
        forall|a: int| 0 <= a < word_index(ws, w) ==> ws[a] != w,
    decreases ws.len(),
{
    if ws.len() > 0 {
        if ws[0] == w {
            assert(ws.contains(w));
        } else {
            lemma_word_index(ws.drop_first(), w);
            assert forall|a: int| 0 <= a < word_index(ws, w) implies ws[a] != w by {
                if a > 0 {
                    assert(ws[a] == ws.drop_first()[a - 1]);
                }
            }
            if ws.contains(w) {
                let k = choose|k: int| 0 <= k < ws.len() && ws[k] == w;
                assert(ws.drop_first()[k - 1] == w);
            }
            if ws.drop_first().contains(w) {
                let k = choose|k: int| 0 <= k < ws.drop_first().len() && ws.drop_first()[k] == w;
                assert(ws[k + 1] == w);
            }
        }
    }
}

proof fn lemma_entry_index(es: Seq<(Seq<Token>, Seq<Index>)>, key: Seq<Token>)
    ensures
        0 <= entry_index(es, key) <= es.len(),
        entry_index(es, key) < es.len() ==> es[entry_index(es, key)].0 == key,
        forall|a: int| 0 <= a < entry_index(es, key) ==> es[a].0 != key,
    decreases es.len(),
{
    if es.len() > 0 && es[0].0 != key {
        lemma_entry_index(es.drop_first(), key);
        assert forall|a: int| 0 <= a < entry_index(es, key) implies es[a].0 != key by {
            if a > 0 {
                assert(es[a] == es.drop_first()[a - 1]);
            }
        }
    }
}

/// In words without repeats, the position holding a word is its index.
proof fn lemma_word_index_is(ws: Seq<Seq<char>>, w: Seq<char>, i: int)
    requires
        ws.no_duplicates(),
        0 <= i < ws.len(),
        ws[i] == w,
    ensures
        word_index(ws, w) == i,
{
    lemma_word_index(ws, w);
}

/// In entries without repeated histories, the position holding a history
/// is its index.
proof fn lemma_entry_index_is(es: Seq<(Seq<Token>, Seq<Index>)>, key: Seq<Token>, i: int)
    requires
        forall|a: int, k: int| 0 <= a < k < es.len() ==> es[a].0 != es[k].0,
        0 <= i <= es.len(),
        i < es.len() ==> es[i].0 == key,
        i == es.len() ==> forall|a: int| 0 <= a < es.len() ==> es[a].0 != key,
    ensures
        entry_index(es, key) == i,
{
    lemma_entry_index(es, key);
    let k = entry_index(es, key);
    if k < i {
        assert(es[k].0 == key);
    }
}

/// The words met so far, each once, numbered in the order they came.
struct Dictionary {
    set: IndexSet<String>,
}

impl Dictionary {
    closed spec fn words(&self) -> Seq<Seq<char>> {
        words_of(self.set)
    }

    fn new() -> (r: Self)
        ensures
            r.words() == Seq::<Seq<char>>::empty(),
    {
        Dictionary { set: words_new() }
    }

    /// The number of `word`, added at the end if it is new.
    fn insert(&mut self, word: String) -> (r: Index)
        requires
            old(self).words().no_duplicates(),
        ensures
            final(self).words() == with_word(old(self).words(), word@),
            final(self).words().no_duplicates(),
            r == word_index(final(self).words(), word@),
            r < final(self).words().len(),
    {
        let ghost w = word@;
        let (index, _) = words_insert(&mut self.set, word);
        proof {
            let ws = words_of(self.set);
            if !old(self).words().contains(w) {
                assert forall|a: int, b: int| 0 <= a < b < ws.len() implies ws[a] != ws[b] by {
                    if b == ws.len() - 1 {
                        assert(old(self).words()[a] != w) by {
                            if old(self).words()[a] == w {
                                assert(old(self).words().contains(w));
                            }
                        }
                    }
                }
            }
            lemma_word_index_is(ws, w, index as int);
        }
        index
    }

    /// The token of `word`: its number if it is known, else unknown.
    fn get_token(&self, word: &str) -> (r: Token)
        requires
            self.words().no_duplicates(),
        ensures
            r == (if self.words().contains(word@) {
                Token::Word(word_index(self.words(), word@) as Index)
            } else {
                Token::Unk
            }),
    {
        match words_find(&self.set, word) {
            Some(i) => {
                proof {
                    lemma_word_index_is(self.words(), word@, i as int);
                }
                Token::Word(i)
            },
            None => Token::Unk,
        }
    }

    /// The word with number `index`, which must be known.
    fn get(&self, index: Index) -> (r: &String)
        requires
            index < self.words().len(),
        ensures
            r@ == self.words()[index as int],
    {
        match words_at(&self.set, index) {
            Some(w) => w,
            None => vstd::pervasive::unreached(),
        }
    }
}

/// Learns which words come after each history of `N` words.
pub struct Trainer<N: NGram + Copy> {
    dictionary: Dictionary,
    history: N,
    model: IndexMap<Vec<Token>, Vec<Index>>,
}

impl<N: NGram + Copy> Trainer<N> {
    /// The words met, in the order they came.
    pub closed spec fn words(&self) -> Seq<Seq<char>> {
        self.dictionary.words()
    }

    /// Each history met, with the numbers of the words that came after it,
    /// in the order they came.
    pub closed spec fn successors(&self) -> Seq<(Seq<Token>, Seq<Index>)> {
        entries_of(self.model)
    }

    /// The words the trainer looks back at.
    pub closed spec fn history_tokens(&self) -> Seq<Token> {
        self.history.tokens_spec()
    }

    #[verifier::type_invariant]
    spec fn consistent(self) -> bool {
        chain_ok(self.dictionary.words(), entries_of(self.model), N::order())
    }

    /// A trainer that has met nothing: no words, no histories, and a
    /// history of unknown words.
    pub fn new() -> (r: Self)
        ensures
            r.words() == Seq::<Seq<char>>::empty(),
            r.successors() == Seq::<(Seq<Token>, Seq<Index>)>::empty(),
            forall|i: int| 0 <= i < r.history_tokens().len() ==> #[trigger] r.history_tokens()[i] == Token::Unk,
            chain_ok(r.words(), r.successors(), N::order()),
    {
        Trainer { dictionary: Dictionary::new(), history: N::start(), model: entries_new() }
    }

    /// Records `word` after the current history, numbering it if it is new,
    /// then moves the history on by it.
    pub fn learn(&mut self, word: String)
        ensures
            final(self).words() == with_word(old(self).words(), word@),
            ({
                let index = word_index(final(self).words(), word@);
                &&& index < final(self).words().len()
                &&& final(self).successors() == recorded(old(self).successors(), old(self).history_tokens(), index as Index)
                &&& final(self).history_tokens() == shift_tokens(old(self).history_tokens(), Token::Word(index as Index))
            }),
            chain_ok(final(self).words(), final(self).successors(), N::order()),
    {
        proof {
            use_type_invariant(&*self);
        }
        let ghost es0 = entries_of(self.model);
        let ghost ws0 = self.dictionary.words();
        let mut model = entries_new();
        std::mem::swap(&mut model, &mut self.model);
        let mut dictionary = Dictionary::new();
        std::mem::swap(&mut dictionary, &mut self.dictionary);
        let index = dictionary.insert(word);
        let key = self.history.tokens();
        proof {
            self.history.lemma_tokens_len();
        }
        match entries_find(&model, &key) {
            Some(i) => {
                proof {
                    lemma_entry_index_is(es0, key@, i as int);
                }
                entries_push_at(&mut model, i, index);
            },
            None => {
                proof {
                    lemma_entry_index_is(es0, key@, es0.len() as int);
                }
                let mut first: Vec<Index> = Vec::new();
                first.push(index);
                proof {
                    assert(first@ =~= seq![index]);
                }
                entries_insert(&mut model, key, first);
            },
        }
        proof {
            let ws = dictionary.words();
            let es = entries_of(model);
            assert(es == recorded(es0, key@, index));
            assert forall|i: int, j: int| 0 <= i < es.len() && 0 <= j < es[i].1.len() implies es[i].1[j] < ws.len() by {
                if i < es0.len() && !(i == entry_index(es0, key@) && j == es0[i].1.len()) {
                    assert(es0[i].1[j] < ws0.len());
                }
            }
            assert forall|i: int, k: int| 0 <= i < k < es.len() implies es[i].0 != es[k].0 by {
                if k == es0.len() {
                    lemma_entry_index(es0, key@);
                }
            }
            assert forall|i: int| 0 <= i < es.len() implies (#[trigger] es[i]).0.len() == N::order() && es[i].1.len() > 0 by {
                if i < es0.len() {
                    assert(es0[i].0.len() == N::order());
                }
            }
        }
        self.dictionary = dictionary;
        self.model = model;
        let mut h = self.history;
        h.update(Token::Word(index));
        self.history = h;
    }

    /// The model learned: the words and what came after each history.
    pub fn build(self) -> (r: MarkovChain<N>)
        ensures
            r.words() == self.words(),
            r.successors() == self.successors(),
            chain_ok(r.words(), r.successors(), N::order()),
    {
        proof {
            use_type_invariant(&self);
        }
        MarkovChain { dictionary: self.dictionary, model: self.model, histories: PhantomData }
    }
}

/// Generates text: after a history, one of the words that came after it.
pub struct MarkovChain<N: NGram + Copy> {
    dictionary: Dictionary,
    model: IndexMap<Vec<Token>, Vec<Index>>,
    histories: PhantomData<N>,
}

impl<N: NGram + Copy> MarkovChain<N> {
    /// The words, by number.
    pub closed spec fn words(&self) -> Seq<Seq<char>> {
        self.dictionary.words()
    }

    /// Each history, with the numbers of the words that came after it.
    pub closed spec fn successors(&self) -> Seq<(Seq<Token>, Seq<Index>)> {
        entries_of(self.model)
    }

    #[verifier::type_invariant]
    spec fn consistent(self) -> bool {
        chain_ok(self.dictionary.words(), entries_of(self.model), N::order())
    }

    /// The number of histories the model knows.
    pub fn history_count(&self) -> (r: usize)
        ensures
            r == self.successors().len(),
    {
        entries_len(&self.model)
    }

    /// The history of entry `pick` modulo the number of entries, and the
    /// words after it.
    fn entry_at(&self, pick: usize) -> (r: (N, &Vec<Index>))
        requires
            self.successors().len() > 0,
        ensures
            r.0.tokens_spec() == self.successors()[(pick as int) % (self.successors().len() as int)].0,
            r.1@ == self.successors()[(pick as int) % (self.successors().len() as int)].1,
    {
        proof {
            use_type_invariant(self);
        }
        let len = entries_len(&self.model);
        let i = pick % len;
        match entries_at(&self.model, i) {
            Some((key, succs)) => {
                proof {
                    assert(entries_of(self.model)[i as int].0.len() == N::order());
                }
                let history = N::from_tokens(key);
                (history, succs)
            },
            None => vstd::pervasive::unreached(),
        }
    }

    /// A history of the model and the words after it, chosen at random.
    fn random_state(&self) -> (r: (N, &Vec<Index>))
        requires
            self.successors().len() > 0,
        ensures
            exists|i: int|
                0 <= i < self.successors().len() && r.0.tokens_spec() == (#[trigger] self.successors()[i]).0 && r.1@
                    == self.successors()[i].1,
    {
        let pick = random_usize();
        let r = self.entry_at(pick);
        proof {
            let i = (pick as int) % (self.successors().len() as int);
            assert(r.0.tokens_spec() == self.successors()[i].0);
        }
        r
    }

    /// The word that follows `history` for the draws `pick_entry` and
    /// `pick_word`: the history's entry, or entry `pick_entry` modulo the
    /// number of entries when the history has none, then the word after it
    /// at place `pick_word` modulo their number; and the history of that
    /// entry moved on by the word.
    pub fn gen_from(&self, history: N, pick_entry: usize, pick_word: usize) -> (r: (String, N))
        requires
            self.successors().len() > 0,
        ensures
            ({
                let (word, next) = generated(self.words(), self.successors(), history.tokens_spec(), pick_entry as int, pick_word as int);
                r.0@ == word && r.1.tokens_spec() == next
            }),
    {
        proof {
            use_type_invariant(self);
        }
        let ghost es = entries_of(self.model);
        let key = history.tokens();
        let (mut history, succs) = match entries_find(&self.model, &key) {
            Some(i) => {
                proof {
                    lemma_entry_index_is(es, key@, i as int);
                }
                match entries_at(&self.model, i) {
                    Some((_, succs)) => (history, succs),
                    None => vstd::pervasive::unreached(),
                }
            },
            None => {
                proof {
                    lemma_entry_index_is(es, key@, es.len() as int);
                }
                self.entry_at(pick_entry)
            },
        };
        let ghost i = chosen_entry(es, key@, pick_entry as int);
        proof {
            if entry_index(es, key@) < es.len() {
                lemma_entry_index_is(es, key@, entry_index(es, key@));
                assert(es[entry_index(es, key@)].0 == key@);
            }
            assert(succs@ == es[i].1);
            assert(succs@.len() > 0);
        }
        let index = successor(succs, pick_word);
        let word = self.dictionary.get(index).clone();
        history.update(Token::Word(index));
        (word, history)
    }

    /// One word after `history`, chosen at random among the words that came
    /// after it, or after a history chosen at random when `history` has no
    /// entry, and the history moved on by that word.
    pub fn gen(&self, history: N) -> (r: (String, N))
        requires
            self.successors().len() > 0,
        ensures
            may_generate(self.words(), self.successors(), history.tokens_spec(), r.0@, r.1.tokens_spec()),
    {
        proof {
            use_type_invariant(self);
        }
        let pick_entry = random_usize();
        let pick_word = random_usize();
        let r = self.gen_from(history, pick_entry, pick_word);
        proof {
            lemma_generated_may(self.words(), self.successors(), history.tokens_spec(), pick_entry as int, pick_word as int);
        }
        r
    }

    /// A generator whose history is the start moved on by the tokens of the
    /// words of `seed`.
    pub fn generator_with_seed(&self, seed: &[&str]) -> (r: Generator<N>)
        ensures
            r.markov == self,
            r.history.tokens_spec() == seeded::<N>(self.words(), seed@.map_values(|s: &str| s@), N::order()),
    {
        proof {
            use_type_invariant(self);
        }
        let mut history = N::start();
        let ghost start = history.tokens_spec();
        proof {
            history.lemma_tokens_len();
            assert(start =~= Seq::new(N::order(), |i: int| Token::Unk));
        }
        let ghost ss = seed@.map_values(|s: &str| s@);
        let mut k: usize = 0;
        while k < seed.len()
            invariant
                k <= seed@.len(),
                ss == seed@.map_values(|s: &str| s@),
                self.dictionary.words().no_duplicates(),
                history.tokens_spec() == seeded::<N>(self.words(), ss.subrange(0, k as int), N::order()),
            decreases seed.len() - k,
        {
            let token = self.dictionary.get_token(seed[k]);
            history.update(token);
            proof {
                assert(ss.subrange(0, k + 1).drop_last() =~= ss.subrange(0, k as int));
                assert(ss.subrange(0, k + 1).last() == seed@[k as int]@);
            }
            k += 1;
        }
        proof {
            assert(ss.subrange(0, k as int) =~= ss);
        }
        Generator { markov: self, history }
    }

    /// A generator starting from a history chosen at random.
    pub fn generator(&self) -> (r: Generator<N>)
        requires
            self.successors().len() > 0,
        ensures
            r.markov == self,
            exists|i: int| 0 <= i < self.successors().len() && r.history.tokens_spec() == (#[trigger] self.successors()[i]).0,
    {
        let (history, _) = self.random_state();
        Generator { markov: self, history }
    }
}

/// The token of a word: its number if it is known, else unknown.
pub open spec fn token_spec(ws: Seq<Seq<char>>, w: Seq<char>) -> Token {
    if ws.contains(w) {
        Token::Word(word_index(ws, w) as Index)
    } else {
        Token::Unk
    }
}

/// The history after the words of `seed`, from a start of unknown words.
pub open spec fn seeded<N: NGram>(ws: Seq<Seq<char>>, seed: Seq<Seq<char>>, order: nat) -> Seq<Token>
    decreases seed.len(),
{
    if seed.len() == 0 {
        Seq::new(order, |i: int| Token::Unk)
    } else {
        shift_tokens(seeded::<N>(ws, seed.drop_last(), order), token_spec(ws, seed.last()))
    }
}

/// Words generated one after the other from a model.
pub struct Generator<'a, N: NGram + Copy> {
    pub markov: &'a MarkovChain<N>,
    pub history: N,
}

impl<'a, N: NGram + Copy> Generator<'a, N> {
    /// The next word, and the history moved on by it.
    pub fn next(&mut self) -> (r: Option<String>)
        requires
            old(self).markov.successors().len() > 0,
        ensures
            final(self).markov == old(self).markov,
            r matches Some(w) && may_generate(
                old(self).markov.words(),
                old(self).markov.successors(),
                old(self).history.tokens_spec(),
                w@,
                final(self).history.tokens_spec(),
            ),
    {
        let h = self.history;
        let (word, next) = self.markov.gen(h);
        self.history = next;
        Some(word)
    }
}

} // verus!
