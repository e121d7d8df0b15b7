use gramophone::gram::Gram;
use gramophone::train::{build_symbol_table, encode_into_ngrams, StopReason, Threshold};
use gramophone::codec::encode_grams;
use gramophone::encode::decompose_sequence;

fn chars(s: &str) -> Vec<char> {
    s.chars().collect()
}

fn one_percent() -> Threshold {
    Threshold { numer: 1, denom: 100 }
}

#[test]
fn ab_ab_ab_merges_once_then_exhausts() {
    let (tokens, grams, stop) = encode_into_ngrams(chars("ab ab ab"), one_percent(), &vec![' ']);
    assert_eq!(
        grams,
        vec![Gram::Orig('a'), Gram::Orig('b'), Gram::Orig(' '), Gram::Composition(0, 1)]
    );
    assert_eq!(tokens, vec![3, 2, 3, 2, 3]);
    assert_eq!(stop, StopReason::Exhausted);
}

#[test]
fn symbol_table_orders_by_first_appearance() {
    let (tokens, grams, flags) = build_symbol_table(&chars("baab."), &vec!['.']);
    assert_eq!(tokens, vec![0, 1, 1, 0, 2]);
    assert_eq!(grams, vec![Gram::Orig('b'), Gram::Orig('a'), Gram::Orig('.')]);
    assert_eq!(flags, vec![false, false, true]);
}

#[test]
fn duplicate_boundaries_share_one_id() {
    let (tokens, grams, flags) = build_symbol_table(&chars("a.a."), &vec!['.']);
    assert_eq!(tokens, vec![0, 1, 0, 1]);
    assert_eq!(grams.len(), 2);
    assert_eq!(flags, vec![false, true]);
}

#[test]
fn ties_go_to_the_lowest_pair() {
    let (tokens, grams, stop) = encode_into_ngrams(chars("abcd"), one_percent(), &vec![]);
    assert_eq!(
        grams,
        vec![
            Gram::Orig('a'),
            Gram::Orig('b'),
            Gram::Orig('c'),
            Gram::Orig('d'),
            Gram::Composition(0, 1),
            Gram::Composition(2, 3),
            Gram::Composition(4, 5),
        ]
    );
    assert_eq!(tokens, vec![6]);
    assert_eq!(stop, StopReason::Exhausted);
}

#[test]
fn rare_pairs_stop_below_threshold() {
    // (a, b) occurs twice in four symbols: one half, under a threshold of one.
    let (tokens, grams, stop) =
        encode_into_ngrams(chars("abab"), Threshold { numer: 1, denom: 1 }, &vec![]);
    assert_eq!(grams, vec![Gram::Orig('a'), Gram::Orig('b')]);
    assert_eq!(tokens, vec![0, 1, 0, 1]);
    assert_eq!(stop, StopReason::BelowThreshold);
}

#[test]
fn threshold_reached_exactly_still_merges() {
    // (a, b) occurs twice in four symbols, exactly one half.
    let (tokens, grams, _) =
        encode_into_ngrams(chars("abab"), Threshold { numer: 1, denom: 2 }, &vec![]);
    assert_eq!(grams[2], Gram::Composition(0, 1));
    assert_eq!(tokens, vec![2, 2]);
}

#[test]
fn empty_input_gives_empty_table() {
    let (tokens, grams, stop) = encode_into_ngrams(vec![], one_percent(), &vec![]);
    assert!(tokens.is_empty());
    assert!(grams.is_empty());
    assert_eq!(stop, StopReason::Exhausted);
}

#[test]
fn most_frequent_pair_wins() {
    // (c, d) occurs three times, (a, b) once.
    let (_, grams, _) = encode_into_ngrams(chars("ab cd cd cd"), one_percent(), &vec![' ']);
    assert_eq!(grams[5], Gram::Composition(3, 4));
}

#[test]
fn training_twice_gives_identical_bytes() {
    let text = "the cat sat on the mat. the rat ate the hat.";
    let (_, first, _) = encode_into_ngrams(chars(text), one_percent(), &vec!['.', ' ']);
    let (_, second, _) = encode_into_ngrams(chars(text), one_percent(), &vec!['.', ' ']);
    assert_eq!(encode_grams(&first), encode_grams(&second));
}

#[test]
fn trained_tables_are_topological() {
    let text = "abracadabra abracadabra cadabra";
    let (_, grams, _) = encode_into_ngrams(chars(text), one_percent(), &vec![' ']);
    assert!(grams.len() > 5);
    for (i, g) in grams.iter().enumerate() {
        if let Gram::Composition(a, b) = g {
            assert!(*a < i && *b < i);
        }
    }
}

#[test]
fn merging_shrinks_the_stream() {
    let text = "abracadabra abracadabra";
    let (tokens, grams, _) = encode_into_ngrams(chars(text), one_percent(), &vec![' ']);
    let literals = grams.iter().filter(|g| matches!(g, Gram::Orig(_))).count();
    let composites = grams.len() - literals;
    assert!(composites > 0);
    assert!(tokens.len() + composites <= text.chars().count());
}

#[test]
fn training_stream_decodes_to_the_input() {
    let text = "to be or not to be.";
    let (tokens, grams, _) = encode_into_ngrams(chars(text), one_percent(), &vec![' ', '.']);
    assert_eq!(decompose_sequence(tokens, &grams), chars(text));
}

#[test]
fn composites_never_hold_a_boundary() {
    let text = "ab.ab.ab.ba.ba";
    let (_, grams, _) = encode_into_ngrams(chars(text), one_percent(), &vec!['.']);
    for (i, g) in grams.iter().enumerate() {
        if let Gram::Composition(_, _) = g {
            let expanded = decompose_sequence(vec![i], &grams);
            assert!(!expanded.contains(&'.'));
        }
    }
}
