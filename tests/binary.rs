use gramophone::gram::Gram;
use gramophone::codec::{
    decode_grams, encode_grams, encode_ids_u16, encode_units_u16, write_binary_number,
    IdentifierOverflow, MalformedRecord,
};
use gramophone::train::{encode_into_ngrams, Threshold};

#[test]
fn records_have_the_documented_layout() {
    let table = vec![Gram::Orig('a'), Gram::Orig('€'), Gram::Composition(0, 1)];
    let bytes = encode_grams(&table);
    assert_eq!(
        bytes,
        vec![
            1, b'a', 0, 0, 0, 0, 0, 0, 0, //
            3, 0xE2, 0x82, 0xAC, 0, 0, 0, 0, 0, //
            0, 0, 0, 0, 0, 1, 0, 0, 0,
        ]
    );
}

#[test]
fn every_utf8_length_is_written() {
    let table = vec![Gram::Orig('é'), Gram::Orig('\u{1F600}')];
    let bytes = encode_grams(&table);
    assert_eq!(&bytes[0..3], &[2, 0xC3, 0xA9]);
    assert_eq!(&bytes[9..14], &[4, 0xF0, 0x9F, 0x98, 0x80]);
}

#[test]
fn codec_round_trips_mixed_tables() {
    let table = vec![
        Gram::Orig('a'),
        Gram::Orig('é'),
        Gram::Orig('€'),
        Gram::Orig('\u{1F600}'),
        Gram::Composition(0, 1),
        Gram::Composition(4, 3),
        Gram::Composition(5, 5),
    ];
    assert_eq!(decode_grams(&encode_grams(&table)), Ok(table));
}

#[test]
fn codec_round_trips_a_trained_table() {
    let text: Vec<char> = "ab ab ab cd cd".chars().collect();
    let (_, table, _) = encode_into_ngrams(text, Threshold { numer: 1, denom: 100 }, &vec![' ']);
    assert_eq!(decode_grams(&encode_grams(&table)), Ok(table));
}

#[test]
fn empty_stream_is_an_empty_table() {
    assert_eq!(decode_grams(&vec![]), Ok(vec![]));
}

#[test]
fn truncated_stream_is_malformed() {
    let mut bytes = encode_grams(&vec![Gram::Orig('a')]);
    bytes.push(0);
    assert_eq!(decode_grams(&bytes), Err(MalformedRecord { index: 1 }));
}

#[test]
fn tag_over_four_is_malformed() {
    let mut bytes = encode_grams(&vec![Gram::Orig('a'), Gram::Orig('b')]);
    bytes[9] = 5;
    assert_eq!(decode_grams(&bytes), Err(MalformedRecord { index: 1 }));
}

#[test]
fn forward_reference_is_malformed() {
    let bytes = vec![1, b'a', 0, 0, 0, 0, 0, 0, 0, 0, 0, 0, 0, 0, 1, 0, 0, 0];
    assert_eq!(decode_grams(&bytes), Err(MalformedRecord { index: 1 }));
}

#[test]
fn invalid_utf8_is_malformed() {
    // An overlong encoding of '\0'.
    let bytes = vec![2, 0xC0, 0x80, 0, 0, 0, 0, 0, 0];
    assert_eq!(decode_grams(&bytes), Err(MalformedRecord { index: 0 }));
    // A length tag that does not match the encoding.
    let bytes = vec![2, b'a', 0, 0, 0, 0, 0, 0, 0];
    assert_eq!(decode_grams(&bytes), Err(MalformedRecord { index: 0 }));
}

#[test]
fn nonzero_padding_is_malformed() {
    let bytes = vec![1, b'a', 0, 0, 0, 0, 0, 0, 7];
    assert_eq!(decode_grams(&bytes), Err(MalformedRecord { index: 0 }));
}

#[test]
fn binary_numbers_are_little_endian() {
    let mut out = vec![9];
    write_binary_number(&mut out, 0x0403_0201);
    assert_eq!(out, vec![9, 1, 2, 3, 4]);
}

#[test]
fn ids_encode_as_16_bit_little_endian() {
    assert_eq!(encode_ids_u16(&vec![1, 0x1234, 0xFFFF]), Ok(vec![1, 0, 0x34, 0x12, 0xFF, 0xFF]));
}

#[test]
fn id_beyond_16_bits_overflows() {
    // Ids of a table with 70,000 entries run up to 69,999.
    assert_eq!(
        encode_ids_u16(&vec![5, 65_536, 69_999]),
        Err(IdentifierOverflow { id: 65_536 })
    );
    assert_eq!(encode_ids_u16(&vec![69_999]), Err(IdentifierOverflow { id: 69_999 }));
}

#[test]
fn units_record_offsets_and_lengths() {
    let units = vec![vec![1, 2], vec![], vec![3]];
    let (bytes, spans) = encode_units_u16(&units).unwrap();
    assert_eq!(bytes, vec![1, 0, 2, 0, 3, 0]);
    assert_eq!(spans, vec![(0, 2), (4, 0), (4, 1)]);
}

#[test]
fn units_fail_on_the_first_wide_id() {
    let units = vec![vec![1], vec![2, 70_000, 80_000]];
    assert_eq!(encode_units_u16(&units), Err(IdentifierOverflow { id: 70_000 }));
}
