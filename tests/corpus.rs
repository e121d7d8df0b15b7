use std::collections::HashMap;

use gramophone::corpus::{classify_link, parse_id, Link, LinkKind};

fn ids(list: &[u32]) -> HashMap<u32, ()> {
    list.iter().map(|&id| (id, ())).collect()
}

#[test]
fn ids_parse_as_decimal() {
    assert_eq!(parse_id(&b"1234".to_vec()), Some(1234));
    assert_eq!(parse_id(&b"+7".to_vec()), Some(7));
    assert_eq!(parse_id(&b"4294967295".to_vec()), Some(u32::MAX));
}

#[test]
fn bad_ids_are_refused() {
    assert_eq!(parse_id(&b"".to_vec()), None);
    assert_eq!(parse_id(&b"+".to_vec()), None);
    assert_eq!(parse_id(&b"12a".to_vec()), None);
    assert_eq!(parse_id(&b"-1".to_vec()), None);
    assert_eq!(parse_id(&b"4294967296".to_vec()), None);
}

#[test]
fn links_read_either_way_round() {
    let (prim, sec, aux) = (ids(&[1, 2]), ids(&[10]), ids(&[20]));
    assert_eq!(
        classify_link(1, 10, &prim, &sec, &aux),
        Some(Link { prim: 1, other: 10, kind: LinkKind::Secondary })
    );
    assert_eq!(
        classify_link(20, 2, &prim, &sec, &aux),
        Some(Link { prim: 2, other: 20, kind: LinkKind::Auxiliary })
    );
}

#[test]
fn unrelated_links_are_refused() {
    let (prim, sec, aux) = (ids(&[1]), ids(&[10, 30]), ids(&[20, 30]));
    assert_eq!(classify_link(10, 20, &prim, &sec, &aux), None);
    assert_eq!(classify_link(1, 2, &prim, &sec, &aux), None);
    // A sentence in both other languages is ambiguous.
    assert_eq!(classify_link(1, 30, &prim, &sec, &aux), None);
}
