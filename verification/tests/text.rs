use aima::trigram::ngram::{Bigram, NGram, Token, Trainer, Trigram};
use aima::trigram::perplexity::NGram as ByteGram;
use aima::trigram::perplexity::Trainer as ByteTrainer;
use aima::trigram::{is_word, tokenize, words};

fn split(text: &str) -> Vec<String> {
    let mut tokenizer = tokenize(());
    let mut words = vec![];
    for byte in text.bytes() {
        if let Some(word) = tokenizer.step(byte) {
            words.push(word);
        }
    }
    if let Some(word) = tokenizer.emit() {
        words.push(word);
    }
    words
}

#[test]
fn tokenizer_splits_words_and_marks() {
    assert_eq!(
        split("Pip's name, mine? No."),
        vec!["Pip's", "name", ",", "mine", "?", "No", "."]
    );
    assert_eq!(split("  \n "), Vec::<String>::new());
    assert_eq!(split("a--b"), vec!["a", "b"]);
    assert!(is_word("Pip"));
    assert!(!is_word(","));
    assert!(is_word(""));
}

#[test]
fn histories_shift() {
    let mut h: Trigram = <Trigram as NGram>::start();
    assert_eq!(h, [Token::Unk, Token::Unk]);
    h.update(Token::Word(3));
    h.update(Token::Word(7));
    assert_eq!(h, [Token::Word(3), Token::Word(7)]);
    assert_eq!(<Trigram as NGram>::len(), 2);
    let mut b: [u8; 2] = <[u8; 2] as ByteGram>::start();
    assert_eq!(b, [b' ', b' ']);
    ByteGram::update(&mut b, b'x');
    assert_eq!(b, [b' ', b'x']);
}

#[test]
fn byte_counts_after_histories() {
    let mut trainer: ByteTrainer<u8> = ByteTrainer::new();
    trainer.learn_word("ab");
    assert_eq!(trainer.max_count(), 1);
    trainer.learn_word("a");
    assert_eq!(trainer.max_count(), 2);
    let model = trainer.into_model();
    // after a space: 'a' twice; after 'a': 'b' then a space; after 'b': a space
    assert_eq!(
        model,
        vec![
            (b' ', 2, vec![(2, b'a')]),
            (b'a', 2, vec![(1, b'b'), (1, b' ')]),
            (b'b', 1, vec![(1, b' ')]),
        ]
    );
}

#[test]
fn byte_counts_without_history() {
    let mut trainer: ByteTrainer<()> = ByteTrainer::new();
    trainer.learn_word("aba");
    let model = trainer.into_model();
    assert_eq!(model, vec![((), 4, vec![(2, b'a'), (1, b'b'), (1, b' ')])]);
}

#[test]
fn byte_counts_after_two_bytes() {
    let mut trainer: ByteTrainer<[u8; 2]> = ByteTrainer::new();
    trainer.learn_word("ab");
    let model = trainer.into_model();
    assert_eq!(
        model,
        vec![
            ([b' ', b' '], 1, vec![(1, b'a')]),
            ([b' ', b'a'], 1, vec![(1, b'b')]),
            ([b'a', b'b'], 1, vec![(1, b' ')]),
        ]
    );
}

#[test]
fn markov_chain_follows_the_text() {
    let mut trainer: Trainer<Bigram> = Trainer::new();
    for w in ["a", "b", "a", "b"] {
        trainer.learn(w.to_string());
    }
    let markov = trainer.build();
    assert_eq!(markov.history_count(), 3);
    // after "a" only "b" came, after "b" only "a"
    let mut generator = markov.generator_with_seed(&["a"]);
    let words: Vec<String> = (0..4).map(|_| generator.next().unwrap()).collect();
    assert_eq!(words, vec!["b", "a", "b", "a"]);
    // an unknown seed word starts from the unknown history, after which "a" came
    let mut unknown = markov.generator_with_seed(&["zzz"]);
    assert_eq!(unknown.next(), Some("a".to_string()));
    let (word, next) = markov.gen(Token::Word(1));
    assert_eq!(word, "a");
    assert_eq!(next, Token::Word(0));
}

#[test]
fn trigram_chain_looks_back_two_words() {
    let mut trainer: Trainer<Trigram> = Trainer::new();
    for w in ["x", "y", "x", "y"] {
        trainer.learn(w.to_string());
    }
    let markov = trainer.build();
    assert_eq!(markov.history_count(), 4);
    let mut generator = markov.generator_with_seed(&["x", "y"]);
    let words: Vec<String> = (0..3).map(|_| generator.next().unwrap()).collect();
    assert_eq!(words, vec!["x", "y", "x"]);
    let mut random_start = markov.generator();
    assert!(random_start.next().is_some());
}

#[test]
fn words_drop_the_punctuation_marks() {
    let tokens = split("Pip's name, mine? No.");
    assert_eq!(words(&tokens), vec!["Pip's", "name", "mine", "No"]);
    assert_eq!(words(&vec![]), Vec::<String>::new());
    assert_eq!(words(&split("!?")), Vec::<String>::new());
}

#[test]
fn markov_draws_pick_by_remainder() {
    let mut trainer: Trainer<Bigram> = Trainer::new();
    for w in ["a", "b", "a", "c"] {
        trainer.learn(w.to_string());
    }
    let markov = trainer.build();
    // after "a" came "b", then "c"
    assert_eq!(markov.gen_from(Token::Word(0), 0, 0).0, "b");
    assert_eq!(markov.gen_from(Token::Word(0), 5, 1).0, "c");
    assert_eq!(markov.gen_from(Token::Word(0), 0, 3), ("c".to_string(), Token::Word(2)));
    // a history without entry: the entry the first draw picks, the unknown
    // start first, then "a", then "b"
    assert_eq!(markov.gen_from(Token::Word(9), 3, 0).0, "a");
    assert_eq!(markov.gen_from(Token::Word(9), 1, 2).0, "b");
    assert_eq!(markov.gen_from(Token::Word(9), 2, 0).0, "a");
}
