use gramophone::gram::Gram;
use gramophone::encode::{decompose_sequence, gramify_sentences, Gramophone, UnknownSymbol};

fn chars(s: &str) -> Vec<char> {
    s.chars().collect()
}

fn ab_table() -> Vec<Gram<char>> {
    vec![Gram::Orig('a'), Gram::Orig('b'), Gram::Orig(' '), Gram::Composition(0, 1)]
}

#[test]
fn encoding_ab_gives_the_composite() {
    let g = Gramophone::new(ab_table());
    assert_eq!(g.encode_text(&chars("ab")), Ok(vec![3]));
}

#[test]
fn decoding_the_composite_gives_ab() {
    assert_eq!(decompose_sequence(vec![3], &ab_table()), vec!['a', 'b']);
}

#[test]
fn unknown_symbol_fails() {
    let g = Gramophone::new(ab_table());
    assert_eq!(g.encode_text(&chars("abz")), Err(UnknownSymbol { symbol: 'z' }));
}

#[test]
fn first_unknown_symbol_is_reported() {
    let g = Gramophone::new(ab_table());
    assert_eq!(g.encode_text(&chars("ayz")), Err(UnknownSymbol { symbol: 'y' }));
}

#[test]
fn encoding_applies_merges_in_table_order() {
    let table = vec![
        Gram::Orig('a'),
        Gram::Orig('b'),
        Gram::Orig('c'),
        Gram::Composition(1, 2),
        Gram::Composition(0, 1),
    ];
    let g = Gramophone::new(table);
    // (b, c) is learned first, so "abc" becomes a, bc, not ab, c.
    assert_eq!(g.encode_text(&chars("abc")), Ok(vec![0, 3]));
    assert_eq!(g.encode_text(&chars("abab")), Ok(vec![4, 4]));
}

#[test]
fn contraction_does_not_overlap() {
    let table = vec![Gram::Orig('a'), Gram::Composition(0, 0)];
    let g = Gramophone::new(table);
    assert_eq!(g.encode_text(&chars("aaa")), Ok(vec![1, 0]));
}

#[test]
fn empty_text_encodes_to_nothing() {
    let g = Gramophone::new(ab_table());
    assert_eq!(g.encode_text(&vec![]), Ok(vec![]));
}

#[test]
fn nested_composites_decode_fully() {
    let table = vec![
        Gram::Orig('x'),
        Gram::Orig('y'),
        Gram::Composition(0, 1),
        Gram::Composition(2, 2),
        Gram::Composition(3, 0),
    ];
    assert_eq!(decompose_sequence(vec![4, 1], &table), chars("xyxyxy"));
}

#[test]
fn encode_then_decode_round_trips() {
    let sents = vec![chars("hello there"), chars("hello world"), chars("there there")];
    let (_, gram) = gramify_sentences(&sents);
    for text in ["hello", "the world", "low three", "hollow"] {
        let ids = gram.encode_text(&chars(text)).unwrap();
        assert_eq!(decompose_sequence(ids, gram.grams()), chars(text));
    }
}

#[test]
fn gramify_trains_on_words_with_ends() {
    let sents = vec![chars("ab"), chars("ab"), chars("ab")];
    let (encoded, gram) = gramify_sentences(&sents);
    assert_eq!(
        gram.grams(),
        &vec![Gram::Orig('a'), Gram::Orig('b'), Gram::Orig('\0'), Gram::Composition(0, 1)]
    );
    assert_eq!(encoded, vec![vec![3], vec![3], vec![3]]);
}

#[test]
fn from_word_iter_knows_every_training_symbol() {
    let words = vec![chars("héllo"), chars("wörld")];
    let gram = Gramophone::from_word_iter(&words);
    assert!(gram.encode_text(&chars("wöh")).is_ok());
    assert_eq!(gram.encode_text(&chars("\u{1F600}")), Err(UnknownSymbol { symbol: '\u{1F600}' }));
}

#[test]
fn duplicate_literals_resolve_to_the_last() {
    let table = vec![Gram::Orig('a'), Gram::Orig('a')];
    let g = Gramophone::new(table);
    assert_eq!(g.encode_text(&chars("a")), Ok(vec![1]));
}
