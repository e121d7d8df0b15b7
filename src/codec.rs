use crate::gram::{Gram, is_topological, lemma_code_injective};
use vstd::prelude::*;

verus! {

/// Size of one record of a serialized gram table.
pub const RECORD_LEN: usize = 9;

/// Four little-endian bytes of `v`.
pub open spec fn u32_le(v: u32) -> Seq<u8> {
    seq![(v & 0xff) as u8, ((v >> 8) & 0xff) as u8, ((v >> 16) & 0xff) as u8, ((v >> 24) & 0xff) as u8]
}

/// The value of four little-endian bytes.
pub open spec fn le_u32(b: Seq<u8>) -> u32 {
    (b[0] as u32) | ((b[1] as u32) << 8) | ((b[2] as u32) << 16) | ((b[3] as u32) << 24)
}

/// The UTF-8 encoding of `c`.
pub open spec fn utf8(c: char) -> Seq<u8> {
    let v = c as u32;
    if v < 0x80 {
        seq![v as u8]
    } else if v < 0x800 {
        seq![(0xC0 | (v >> 6)) as u8, (0x80 | (v & 0x3F)) as u8]
    } else if v < 0x10000 {
        seq![(0xE0 | (v >> 12)) as u8, (0x80 | ((v >> 6) & 0x3F)) as u8, (0x80 | (v & 0x3F)) as u8]
    } else {
        seq![
            (0xF0 | (v >> 18)) as u8,
            (0x80 | ((v >> 12) & 0x3F)) as u8,
            (0x80 | ((v >> 6) & 0x3F)) as u8,
            (0x80 | (v & 0x3F)) as u8,
        ]
    }
}

/// The code point that `len` leading bytes of `b` would encode, read without validation.
pub open spec fn utf8_code(len: u8, b: Seq<u8>) -> u32 {
    if len == 1 {
        b[0] as u32
    } else if len == 2 {
        (((b[0] as u32) & 0x1F) << 6) | ((b[1] as u32) & 0x3F)
    } else if len == 3 {
        (((b[0] as u32) & 0x0F) << 12) | (((b[1] as u32) & 0x3F) << 6) | ((b[2] as u32) & 0x3F)
    } else {
        (((b[0] as u32) & 0x07) << 18) | (((b[1] as u32) & 0x3F) << 12) | (((b[2] as u32) & 0x3F)
            << 6) | ((b[3] as u32) & 0x3F)
    }
}

/// The record of one gram: a tag byte, then eight payload bytes. A literal is tagged with the
/// length of its symbol's UTF-8 encoding, which follows, padded with zeros; a composite is
/// tagged 0 and holds its two ids as little-endian 32-bit integers.
pub open spec fn record(g: Gram<char>) -> Seq<u8> {
    match g {
        Gram::Orig(c) => seq![utf8(c).len() as u8] + utf8(c) + Seq::new(
            (8 - utf8(c).len()) as nat,
            |i: int| 0u8,
        ),
        Gram::Composition(a, b) => seq![0u8] + u32_le(a as u32) + u32_le(b as u32),
    }
}

/// The records of a whole table, back to back.
pub open spec fn table_bytes(t: Seq<Gram<char>>) -> Seq<u8>
    decreases t.len(),
{
    if t.len() == 0 {
        Seq::empty()
    } else {
        table_bytes(t.drop_last()) + record(t.last())
    }
}

/// Every id of the table fits in 32 bits.
pub open spec fn ids_fit_u32(t: Seq<Gram<char>>) -> bool {
    t.len() <= 0x1_0000_0000
}

proof fn lemma_utf8_code(c: char)
    ensures
        1 <= utf8(c).len() <= 4,
        utf8_code(utf8(c).len() as u8, utf8(c)) == c as u32,
{
    let v = c as u32;
    assert(v <= 0x10FFFF);
    if v < 0x80 {
    } else if v < 0x800 {
        assert(v < 0x800 ==> ((((0xC0 | (v >> 6)) as u8) as u32 & 0x1F) << 6) | (((0x80 | (v
            & 0x3F)) as u8) as u32 & 0x3F) == v) by (bit_vector);
    } else if v < 0x10000 {
        assert(v < 0x10000 ==> ((((0xE0 | (v >> 12)) as u8) as u32 & 0x0F) << 12) | ((((0x80 | ((v
            >> 6) & 0x3F)) as u8) as u32 & 0x3F) << 6) | (((0x80 | (v & 0x3F)) as u8) as u32
            & 0x3F) == v) by (bit_vector);
    } else {
        assert(v <= 0x10FFFF ==> ((((0xF0 | (v >> 18)) as u8) as u32 & 0x07) << 18) | ((((0x80 | ((
        v >> 12) & 0x3F)) as u8) as u32 & 0x3F) << 12) | ((((0x80 | ((v >> 6) & 0x3F)) as u8)
            as u32 & 0x3F) << 6) | (((0x80 | (v & 0x3F)) as u8) as u32 & 0x3F) == v) by (bit_vector);
    }
}

/// Different symbols have different encodings.
pub proof fn lemma_utf8_injective(c: char, d: char)
    requires
        utf8(c) == utf8(d),
    ensures
        c == d,
{
    lemma_utf8_code(c);
    lemma_utf8_code(d);
    assert(0 <= c as int <= 0x10FFFF);
    assert(0 <= d as int <= 0x10FFFF);
}

proof fn lemma_char_range(c: char)
    ensures
        c as u32 <= 0x10FFFF,
        !(0xD800 <= c as u32 <= 0xDFFF),
{
}

proof fn lemma_u32_le(v: u32)
    ensures
        le_u32(u32_le(v)) == v,
{
    assert(((((v & 0xff) as u8) as u32) | ((((v >> 8) & 0xff) as u8) as u32) << 8 | ((((v >> 16)
        & 0xff) as u8) as u32) << 16 | ((((v >> 24) & 0xff) as u8) as u32) << 24) == v)
        by (bit_vector);
}

/// Writes the four little-endian bytes of `number` after `out`.
pub fn write_binary_number(out: &mut Vec<u8>, number: u32)
    ensures
        final(out)@ == old(out)@ + u32_le(number),
{
    out.push((number & 0xff) as u8);
    out.push(((number >> 8) & 0xff) as u8);
    out.push(((number >> 16) & 0xff) as u8);
    out.push(((number >> 24) & 0xff) as u8);
    proof {
        assert(out@ =~= old(out)@ + u32_le(number));
    }
}

/// Writes the UTF-8 encoding of `c` after `out` and returns its length.
pub fn write_utf8(out: &mut Vec<u8>, c: char) -> (len: usize)
    ensures
        final(out)@ == old(out)@ + utf8(c),
        len == utf8(c).len(),
{
    let v = c as u32;
    if v < 0x80 {
        out.push(v as u8);
        proof {
            assert(out@ =~= old(out)@ + utf8(c));
        }
        1
    } else if v < 0x800 {
        out.push((0xC0 | (v >> 6)) as u8);
        out.push((0x80 | (v & 0x3F)) as u8);
        proof {
            assert(out@ =~= old(out)@ + utf8(c));
        }
        2
    } else if v < 0x10000 {
        out.push((0xE0 | (v >> 12)) as u8);
        out.push((0x80 | ((v >> 6) & 0x3F)) as u8);
        out.push((0x80 | (v & 0x3F)) as u8);
        proof {
            assert(out@ =~= old(out)@ + utf8(c));
        }
        3
    } else {
        out.push((0xF0 | (v >> 18)) as u8);
        out.push((0x80 | ((v >> 12) & 0x3F)) as u8);
        out.push((0x80 | ((v >> 6) & 0x3F)) as u8);
        out.push((0x80 | (v & 0x3F)) as u8);
        proof {
            assert(out@ =~= old(out)@ + utf8(c));
        }
        4
    }
}

/// Writes the record of `g` after `out`.
pub fn write_record(out: &mut Vec<u8>, g: Gram<char>)
    requires
        g matches Gram::Composition(a, b) ==> a <= u32::MAX && b <= u32::MAX,
    ensures
        final(out)@ == old(out)@ + record(g),
{
    match g {
        Gram::Orig(ch) => {
            let mut payload: Vec<u8> = Vec::new();
            let len = write_utf8(&mut payload, ch);
            proof {
                lemma_utf8_code(ch);
            }
            let mut k: usize = len;
            while k < 8
                invariant
                    len <= k <= 8,
                    payload@ == utf8(ch) + Seq::new((k - len) as nat, |i: int| 0u8),
                decreases 8 - k,
            {
                payload.push(0);
                proof {
                    assert(payload@ =~= utf8(ch) + Seq::new((k + 1 - len) as nat, |i: int| 0u8));
                }
                k = k + 1;
            }
            out.push(len as u8);
            let mut j: usize = 0;
            let ghost start = out@;
            while j < payload.len()
                invariant
                    j <= payload@.len(),
                    out@ == start + payload@.take(j as int),
                decreases payload@.len() - j,
            {
                out.push(payload[j]);
                proof {
                    assert(payload@.take(j + 1) =~= payload@.take(j as int).push(payload@[j as int]));
                    assert(out@ =~= start + payload@.take(j + 1));
                }
                j = j + 1;
            }
            proof {
                assert(payload@.take(j as int) =~= payload@);
                assert(out@ =~= old(out)@ + record(g));
            }
        },
        Gram::Composition(a, b) => {
            out.push(0);
            write_binary_number(out, a as u32);
            write_binary_number(out, b as u32);
            proof {
                assert(out@ =~= old(out)@ + record(g));
            }
        },
    }
}

/// Serializes a table in topological order whose ids fit in 32 bits: one record per entry, in
/// table order, with no length prefix.
pub fn encode_grams(grams: &Vec<Gram<char>>) -> (r: Vec<u8>)
    requires
        is_topological(grams@),
        ids_fit_u32(grams@),
    ensures
        r@ == table_bytes(grams@),
{
    let mut out: Vec<u8> = Vec::new();
    let mut i: usize = 0;
    while i < grams.len()
        invariant
            i <= grams@.len(),
            is_topological(grams@),
            ids_fit_u32(grams@),
            out@ == table_bytes(grams@.take(i as int)),
        decreases grams@.len() - i,
    {
        let g = grams[i];
        proof {
            assert(grams@.take(i + 1).drop_last() =~= grams@.take(i as int));
            assert(grams@[i as int] == g);
        }
        write_record(&mut out, g);
        i = i + 1;
    }
    proof {
        assert(grams@.take(i as int) =~= grams@);
    }
    out
}

/// The entry that record `r` holds at table index `i`, if it is well formed there.
pub open spec fn parse_record(r: Seq<u8>, i: int) -> Option<Gram<char>> {
    if r[0] == 0 {
        let a = le_u32(r.subrange(1, 5));
        let b = le_u32(r.subrange(5, 9));
        if a < i && b < i {
            Some(Gram::Composition(a as usize, b as usize))
        } else {
            None
        }
    } else if exists|c: char| record(Gram::Orig(c)) == r {
        Some(Gram::Orig(choose|c: char| record(Gram::Orig(c)) == r))
    } else {
        None
    }
}

/// The first `n` records of `b`, if all of them are well formed.
pub open spec fn parse_records(b: Seq<u8>, n: nat) -> Option<Seq<Gram<char>>>
    decreases n,
{
    if n == 0 {
        Some(Seq::empty())
    } else {
        match parse_records(b, (n - 1) as nat) {
            Some(t) => match parse_record(b.subrange(9 * (n - 1), 9 * n as int), n - 1) {
                Some(g) => Some(t.push(g)),
                None => None,
            },
            None => None,
        }
    }
}

/// The table that `b` serializes, if it is a whole number of well-formed records.
pub open spec fn parse_table(b: Seq<u8>) -> Option<Seq<Gram<char>>> {
    if b.len() % 9 != 0 {
        None
    } else {
        parse_records(b, b.len() / 9)
    }
}

proof fn lemma_parse_records_stops(b: Seq<u8>, m: nat, k: nat)
    requires
        m <= k,
        parse_records(b, m) is None,
    ensures
        parse_records(b, k) is None,
    decreases k,
{
    if k > m {
        lemma_parse_records_stops(b, m, (k - 1) as nat);
    }
}

proof fn lemma_record_len(g: Gram<char>)
    ensures
        record(g).len() == 9,
{
    if let Gram::Orig(c) = g {
        lemma_utf8_code(c);
    }
}

proof fn lemma_table_bytes_len(t: Seq<Gram<char>>)
    ensures
        table_bytes(t).len() == 9 * t.len(),
    decreases t.len(),
{
    if t.len() > 0 {
        lemma_table_bytes_len(t.drop_last());
        lemma_record_len(t.last());
    }
}

proof fn lemma_parse_prefix(b1: Seq<u8>, b2: Seq<u8>, m: nat)
    requires
        b1.len() >= 9 * m,
        b2.len() >= 9 * m,
        b1.take(9 * m as int) == b2.take(9 * m as int),
    ensures
        parse_records(b1, m) == parse_records(b2, m),
    decreases m,
{
    if m > 0 {
        assert(b1.take(9 * (m - 1)) =~= b1.take(9 * m as int).take(9 * (m - 1)));
        assert(b2.take(9 * (m - 1)) =~= b2.take(9 * m as int).take(9 * (m - 1)));
        lemma_parse_prefix(b1, b2, (m - 1) as nat);
        assert(b1.subrange(9 * (m - 1), 9 * m as int) =~= b1.take(9 * m as int).subrange(
            9 * (m - 1),
            9 * m as int,
        ));
        assert(b2.subrange(9 * (m - 1), 9 * m as int) =~= b2.take(9 * m as int).subrange(
            9 * (m - 1),
            9 * m as int,
        ));
    }
}

proof fn lemma_parse_record(g: Gram<char>, i: int)
    requires
        i <= 0x1_0000_0000,
        g matches Gram::Composition(a, b) ==> a < i && b < i,
    ensures
        parse_record(record(g), i) == Some(g),
{
    let r = record(g);
    match g {
        Gram::Orig(c) => {
            lemma_literal_record(c, r);
        },
        Gram::Composition(a, b) => {
            assert(r.subrange(1, 5) =~= u32_le(a as u32));
            assert(r.subrange(5, 9) =~= u32_le(b as u32));
            lemma_u32_le(a as u32);
            lemma_u32_le(b as u32);
        },
    }
}

/// Serializing a table in topological order whose ids fit in 32 bits, then parsing the bytes,
/// gives the same table back.
pub proof fn lemma_codec_round_trip(t: Seq<Gram<char>>)
    requires
        is_topological(t),
        ids_fit_u32(t),
    ensures
        parse_table(table_bytes(t)) == Some(t),
    decreases t.len(),
{
    lemma_table_bytes_len(t);
    if t.len() > 0 {
        let p = t.drop_last();
        assert(is_topological(p));
        lemma_codec_round_trip(p);
        let b = table_bytes(t);
        let n = t.len();
        lemma_table_bytes_len(p);
        assert(b.take(9 * (n - 1)) =~= table_bytes(p).take(9 * (n - 1)));
        assert(b.take(9 * (n - 1)) =~= table_bytes(p));
        lemma_parse_prefix(b, table_bytes(p), (n - 1) as nat);
        assert(b.subrange(9 * (n - 1), 9 * n as int) =~= record(t.last()));
        assert(t[n - 1] == t.last());
        lemma_parse_record(t.last(), n - 1);
        assert(p.push(t.last()) =~= t);
    }
}

/// A record that cannot be read: its index in the stream.
#[derive(Debug, Clone, Copy, PartialEq, Eq)]
pub struct MalformedRecord {
    pub index: usize,
}

/// Relies on char::from_u32: `Some` exactly for Unicode scalar values, holding that value.
#[verifier::external_body]
fn char_from_code(v: u32) -> (r: Option<char>)
    ensures
        r matches Some(c) ==> c as u32 == v,
        r is None ==> !(v <= 0x10FFFF && !(0xD800 <= v <= 0xDFFF)),
{
    char::from_u32(v)
}

fn read_u32(bytes: &Vec<u8>, at: usize) -> (r: u32)
    requires
        at + 4 <= bytes@.len(),
    ensures
        r == le_u32(bytes@.subrange(at as int, at + 4)),
{
    proof {
        assert(bytes.len() == bytes@.len());
    }
    let ghost b = bytes@.subrange(at as int, at + 4);
    assert(b[0] == bytes@[at as int] && b[1] == bytes@[at + 1] && b[2] == bytes@[at + 2] && b[3]
        == bytes@[at + 3]);
    (bytes[at] as u32) | ((bytes[at + 1] as u32) << 8) | ((bytes[at + 2] as u32) << 16) | ((
    bytes[at + 3] as u32) << 24)
}

fn read_utf8_code(bytes: &Vec<u8>, at: usize, len: u8) -> (r: u32)
    requires
        at + 8 <= bytes@.len(),
    ensures
        r == utf8_code(len, bytes@.subrange(at as int, at + 8)),
{
    proof {
        assert(bytes.len() == bytes@.len());
    }
    let ghost b = bytes@.subrange(at as int, at + 8);
    assert(b[0] == bytes@[at as int] && b[1] == bytes@[at + 1] && b[2] == bytes@[at + 2] && b[3]
        == bytes@[at + 3]);
    let b0 = bytes[at] as u32;
    let b1 = bytes[at + 1] as u32;
    let b2 = bytes[at + 2] as u32;
    let b3 = bytes[at + 3] as u32;
    if len == 1 {
        b0
    } else if len == 2 {
        ((b0 & 0x1F) << 6) | (b1 & 0x3F)
    } else if len == 3 {
        ((b0 & 0x0F) << 12) | ((b1 & 0x3F) << 6) | (b2 & 0x3F)
    } else {
        ((b0 & 0x07) << 18) | ((b1 & 0x3F) << 12) | ((b2 & 0x3F) << 6) | (b3 & 0x3F)
    }
}

proof fn lemma_literal_record(c: char, r: Seq<u8>)
    requires
        record(Gram::Orig(c)) == r,
    ensures
        1 <= r[0] <= 4,
        r.len() == 9,
        utf8_code(r[0], r.subrange(1, 9)) == c as u32,
        forall|d: char| record(Gram::Orig(d)) == r ==> d == c,
{
    lemma_utf8_code(c);
    let u = utf8(c);
    assert(r.subrange(1, 1 + u.len() as int) =~= u);
    assert forall|d: char| record(Gram::Orig(d)) == r implies d == c by {
        lemma_utf8_code(d);
        assert(record(Gram::Orig(d))[0] == utf8(d).len() as u8);
        assert(utf8(d).len() == u.len());
        assert(r.subrange(1, 1 + utf8(d).len() as int) =~= utf8(d));
        lemma_utf8_injective(c, d);
    }
    let p = r.subrange(1, 9);
    assert(forall|k: int| 0 <= k < u.len() ==> p[k] == u[k]);
}

/// Reads the record at byte `start` as the entry at table index `i`.
fn read_record(bytes: &Vec<u8>, start: usize, i: usize) -> (r: Option<Gram<char>>)
    requires
        start + 9 <= bytes@.len(),
    ensures
        r == parse_record(bytes@.subrange(start as int, start + 9), i as int),
{
    proof {
        assert(bytes.len() == bytes@.len());
    }
    let ghost rec = bytes@.subrange(start as int, start + 9);
    let tag = bytes[start];
    assert(rec[0] == tag);
    if tag == 0 {
        let a = read_u32(bytes, start + 1);
        let b = read_u32(bytes, start + 5);
        proof {
            assert(rec.subrange(1, 5) =~= bytes@.subrange(start + 1, start + 5));
            assert(rec.subrange(5, 9) =~= bytes@.subrange(start + 5, start + 9));
        }
        if (a as usize) < i && (b as usize) < i {
            Some(Gram::Composition(a as usize, b as usize))
        } else {
            None
        }
    } else {
        proof {
            assert(rec.subrange(1, 9) =~= bytes@.subrange(start + 1, start + 9));
            if exists|c: char| record(Gram::Orig(c)) == rec {
                let c = choose|c: char| record(Gram::Orig(c)) == rec;
                lemma_literal_record(c, rec);
            }
        }
        if tag > 4 {
            return None;
        }
        let code = read_utf8_code(bytes, start + 1, tag);
        match char_from_code(code) {
            None => {
                proof {
                    if exists|c: char| record(Gram::Orig(c)) == rec {
                        let c = choose|c: char| record(Gram::Orig(c)) == rec;
                        lemma_literal_record(c, rec);
                        lemma_char_range(c);
                    }
                }
                None
            },
            Some(ch) => {
                let mut expected: Vec<u8> = Vec::new();
                write_record(&mut expected, Gram::Orig(ch));
                assert(expected@ =~= record(Gram::Orig(ch)));
                proof {
                    assert forall|c: char| record(Gram::Orig(c)) == rec implies c == ch by {
                        lemma_literal_record(c, rec);
                        lemma_code_injective(c, ch);
                    }
                }
                let mut k: usize = 0;
                while k < 9
                    invariant
                        k <= 9,
                        expected@ == record(Gram::Orig(ch)),
                        expected@.len() == 9,
                        start + 9 <= bytes@.len(),
                        bytes@.len() <= usize::MAX,
                        rec == bytes@.subrange(start as int, start + 9),
                        forall|c: char| record(Gram::Orig(c)) == rec ==> c == ch,
                        tag == rec[0],
                        tag != 0,
                        forall|j: int| 0 <= j < k ==> expected@[j] == rec[j],
                    decreases 9 - k,
                {
                    if expected[k] != bytes[start + k] {
                        proof {
                            if exists|c: char| record(Gram::Orig(c)) == rec {
                                let c = choose|c: char| record(Gram::Orig(c)) == rec;
                                assert(c == ch);
                                assert(expected@[k as int] == rec[k as int]);
                            }
                        }
                        return None;
                    }
                    k = k + 1;
                }
                proof {
                    assert(expected@ =~= rec);
                    assert(record(Gram::Orig(ch)) == rec);
                    let c = choose|c: char| record(Gram::Orig(c)) == rec;
                    assert(c == ch);
                }
                Some(Gram::Orig(ch))
            },
        }
    }
}

/// Parses a serialized table. Fails, naming the first bad record, when the stream is not a
/// whole number of records, a tag is over 4, a literal is not the padded UTF-8 encoding of one
/// symbol, or a composite refers to an id at or after its own.
pub fn decode_grams(bytes: &Vec<u8>) -> (r: Result<Vec<Gram<char>>, MalformedRecord>)
    ensures
        match r {
            Ok(t) => parse_table(bytes@) == Some(t@),
            Err(e) => parse_table(bytes@) is None && if bytes@.len() % 9 != 0 {
                e.index == bytes@.len() / 9
            } else {
                parse_records(bytes@, e.index as nat) is Some && parse_records(
                    bytes@,
                    (e.index + 1) as nat,
                ) is None
            },
        },
{
    let n = bytes.len() / RECORD_LEN;
    if bytes.len() % RECORD_LEN != 0 {
        return Err(MalformedRecord { index: n });
    }
    let mut out: Vec<Gram<char>> = Vec::new();
    let mut i: usize = 0;
    while i < n
        invariant
            n == bytes@.len() / 9,
            9 * n == bytes@.len(),
            bytes@.len() <= usize::MAX,
            bytes@.len() % 9 == 0,
            i <= n,
            parse_records(bytes@, i as nat) == Some(out@),
        decreases n - i,
    {
        let start = i * RECORD_LEN;
        match read_record(bytes, start, i) {
            Some(g) => {
                out.push(g);
            },
            None => {
                proof {
                    lemma_parse_records_stops(bytes@, (i + 1) as nat, n as nat);
                }
                return Err(MalformedRecord { index: i });
            },
        }
        i = i + 1;
    }
    Ok(out)
}

/// Two little-endian bytes of an id below 2^16.
pub open spec fn u16_le(id: usize) -> Seq<u8> {
    seq![(id % 256) as u8, (id / 256) as u8]
}

/// The ids of `ids` as consecutive 16-bit little-endian integers.
pub open spec fn ids_u16_bytes(ids: Seq<usize>) -> Seq<u8>
    decreases ids.len(),
{
    if ids.len() == 0 {
        Seq::empty()
    } else {
        ids_u16_bytes(ids.drop_last()) + u16_le(ids.last())
    }
}

/// Every id of `ids` fits in 16 bits.
pub open spec fn fits_u16(ids: Seq<usize>) -> bool {
    forall|i: int| 0 <= i < ids.len() ==> ids[i] <= 0xFFFF
}

/// The first id of `ids` that does not fit in 16 bits.
pub open spec fn first_wide(ids: Seq<usize>) -> usize {
    ids[choose|i: int|
        0 <= i < ids.len() && ids[i] > 0xFFFF && forall|j: int| 0 <= j < i ==> ids[j] <= 0xFFFF]
}

/// The units' ids, back to back.
pub open spec fn concat_units(units: Seq<Seq<usize>>) -> Seq<usize>
    decreases units.len(),
{
    if units.len() == 0 {
        Seq::empty()
    } else {
        concat_units(units.drop_last()) + units.last()
    }
}

/// A gram id too large for the 16-bit encoding.
#[derive(Debug, Clone, Copy, PartialEq, Eq)]
pub struct IdentifierOverflow {
    pub id: usize,
}

proof fn lemma_ids_u16_bytes_append(s: Seq<usize>, t: Seq<usize>)
    ensures
        ids_u16_bytes(s + t) == ids_u16_bytes(s) + ids_u16_bytes(t),
    decreases t.len(),
{
    if t.len() == 0 {
        assert(s + t =~= s);
        assert(ids_u16_bytes(s) + ids_u16_bytes(t) =~= ids_u16_bytes(s));
    } else {
        assert((s + t).drop_last() =~= s + t.drop_last());
        lemma_ids_u16_bytes_append(s, t.drop_last());
        assert(ids_u16_bytes(s + t) =~= ids_u16_bytes(s) + ids_u16_bytes(t));
    }
}

proof fn lemma_ids_u16_bytes_len(s: Seq<usize>)
    ensures
        ids_u16_bytes(s).len() == 2 * s.len(),
    decreases s.len(),
{
    if s.len() > 0 {
        lemma_ids_u16_bytes_len(s.drop_last());
    }
}

/// Writes `ids` after `out` as 16-bit little-endian integers. Fails, writing nothing, on the
/// first id that does not fit.
pub fn write_ids_u16(out: &mut Vec<u8>, ids: &Vec<usize>) -> (r: Result<(), IdentifierOverflow>)
    ensures
        match r {
            Ok(()) => fits_u16(ids@) && final(out)@ == old(out)@ + ids_u16_bytes(ids@),
            Err(e) => !fits_u16(ids@) && e.id == first_wide(ids@) && final(out)@ == old(out)@,
        },
{
    let mut i: usize = 0;
    while i < ids.len()
        invariant
            i <= ids@.len(),
            forall|j: int| 0 <= j < i ==> ids@[j] <= 0xFFFF,
        decreases ids@.len() - i,
    {
        let id = ids[i];
        if id > 0xFFFF {
            proof {
                let w = choose|k: int|
                    0 <= k < ids@.len() && ids@[k] > 0xFFFF && forall|j: int|
                        0 <= j < k ==> ids@[j] <= 0xFFFF;
                assert(0 <= i < ids@.len() && ids@[i as int] > 0xFFFF && forall|j: int|
                    0 <= j < i ==> ids@[j] <= 0xFFFF);
                if w > i {
                    assert(ids@[i as int] <= 0xFFFF);
                }
            }
            return Err(IdentifierOverflow { id });
        }
        i = i + 1;
    }
    let mut k: usize = 0;
    while k < ids.len()
        invariant
            k <= ids@.len(),
            fits_u16(ids@),
            out@ == old(out)@ + ids_u16_bytes(ids@.take(k as int)),
        decreases ids@.len() - k,
    {
        let id = ids[k];
        out.push((id % 256) as u8);
        out.push((id / 256) as u8);
        proof {
            assert(ids@.take(k + 1).drop_last() =~= ids@.take(k as int));
            assert(out@ =~= old(out)@ + ids_u16_bytes(ids@.take(k + 1)));
        }
        k = k + 1;
    }
    proof {
        assert(ids@.take(k as int) =~= ids@);
    }
    Ok(())
}

/// Encodes one unit's gram ids as 16-bit little-endian integers, failing on the first id that
/// does not fit.
pub fn encode_ids_u16(ids: &Vec<usize>) -> (r: Result<Vec<u8>, IdentifierOverflow>)
    ensures
        match r {
            Ok(bytes) => fits_u16(ids@) && bytes@ == ids_u16_bytes(ids@),
            Err(e) => !fits_u16(ids@) && e.id == first_wide(ids@),
        },
{
    let mut out: Vec<u8> = Vec::new();
    match write_ids_u16(&mut out, ids) {
        Ok(()) => {
            assert(out@ =~= ids_u16_bytes(ids@));
            Ok(out)
        },
        Err(e) => Err(e),
    }
}

/// Encodes units back to back, each as 16-bit little-endian ids, and returns for each unit its
/// byte offset in the stream and its number of ids. Fails on the first id, over all units, that
/// does not fit.
pub fn encode_units_u16(units: &Vec<Vec<usize>>) -> (r: Result<(Vec<u8>, Vec<(usize, usize)>), IdentifierOverflow>)
    ensures
        match r {
            Ok((bytes, spans)) => {
                &&& fits_u16(concat_units(units.deep_view()))
                &&& bytes@ == ids_u16_bytes(concat_units(units.deep_view()))
                &&& spans@.len() == units@.len()
                &&& forall|i: int|
                    0 <= i < spans@.len() ==> #[trigger] spans@[i].0 == 2 * concat_units(
                        units.deep_view().take(i),
                    ).len() && spans@[i].1 == units@[i]@.len()
            },
            Err(e) => !fits_u16(concat_units(units.deep_view())) && e.id == first_wide(
                concat_units(units.deep_view()),
            ),
        },
{
    let ghost us = units.deep_view();
    let mut out: Vec<u8> = Vec::new();
    let mut spans: Vec<(usize, usize)> = Vec::new();
    let mut i: usize = 0;
    while i < units.len()
        invariant
            us == units.deep_view(),
            i <= units@.len(),
            fits_u16(concat_units(us.take(i as int))),
            out@ == ids_u16_bytes(concat_units(us.take(i as int))),
            spans@.len() == i,
            forall|k: int|
                0 <= k < i ==> #[trigger] spans@[k].0 == 2 * concat_units(us.take(k)).len()
                    && spans@[k].1 == units@[k]@.len(),
        decreases units@.len() - i,
    {
        let unit = &units[i];
        let ghost prev = concat_units(us.take(i as int));
        proof {
            assert(us.take(i + 1).drop_last() =~= us.take(i as int));
            assert(us[i as int] == unit@);
            lemma_ids_u16_bytes_len(prev);
        }
        let offset = out.len();
        match write_ids_u16(&mut out, unit) {
            Ok(()) => {
                spans.push((offset, unit.len()));
                proof {
                    lemma_ids_u16_bytes_append(prev, unit@);
                    assert(concat_units(us.take(i + 1)) == prev + unit@);
                    assert forall|j: int| 0 <= j < (prev + unit@).len() implies (prev + unit@)[j]
                        <= 0xFFFF by {
                        if j < prev.len() {
                            assert(prev[j] <= 0xFFFF);
                        } else {
                            assert(unit@[j - prev.len()] <= 0xFFFF);
                        }
                    }
                }
            },
            Err(e) => {
                proof {
                    lemma_first_wide_in_unit(us, i as int);
                }
                return Err(e);
            },
        }
        i = i + 1;
    }
    proof {
        assert(us.take(i as int) =~= us);
        assert(concat_units(us.take(i as int)) == concat_units(us));
        assert forall|k: int| 0 <= k < spans@.len() implies #[trigger] spans@[k].0 == 2
            * concat_units(units.deep_view().take(k)).len() && spans@[k].1 == units@[k]@.len() by {}
        assert(fits_u16(concat_units(units.deep_view())));
        assert(out@ == ids_u16_bytes(concat_units(units.deep_view())));
        assert(spans@.len() == units@.len());
    }
    Ok((out, spans))
}

proof fn lemma_first_wide_exists(s: Seq<usize>)
    requires
        !fits_u16(s),
    ensures
        exists|k: int|
            0 <= k < s.len() && s[k] > 0xFFFF && forall|j: int| 0 <= j < k ==> s[j] <= 0xFFFF,
    decreases s.len(),
{
    let p = s.drop_last();
    if !fits_u16(p) {
        lemma_first_wide_exists(p);
        let k = choose|k: int|
            0 <= k < p.len() && p[k] > 0xFFFF && forall|j: int| 0 <= j < k ==> p[j] <= 0xFFFF;
        assert(s[k] == p[k]);
        assert forall|j: int| 0 <= j < k implies s[j] <= 0xFFFF by {
            assert(p[j] == s[j]);
        }
    } else {
        let k = s.len() - 1;
        assert forall|j: int| 0 <= j < k implies s[j] <= 0xFFFF by {
            assert(p[j] == s[j]);
        }
    }
}

proof fn lemma_first_wide_in_unit(us: Seq<Seq<usize>>, i: int)
    requires
        0 <= i < us.len(),
        fits_u16(concat_units(us.take(i))),
        !fits_u16(us[i]),
    ensures
        !fits_u16(concat_units(us)),
        first_wide(concat_units(us)) == first_wide(us[i]),
{
    let prev = concat_units(us.take(i));
    let unit = us[i];
    let all = concat_units(us);
    assert(us.take(i + 1).drop_last() =~= us.take(i));
    assert(us.take(i + 1).last() == unit);
    let cur = concat_units(us.take(i + 1));
    assert(cur == prev + unit);
    lemma_concat_prefix(us, i + 1);
    lemma_first_wide_exists(unit);
    let w = choose|k: int|
        0 <= k < unit.len() && unit[k] > 0xFFFF && forall|j: int| 0 <= j < k ==> unit[j] <= 0xFFFF;
    let at = prev.len() + w;
    assert(cur[at] == unit[w]);
    assert(all[at] == cur[at]);
    assert forall|j: int| 0 <= j < at implies all[j] <= 0xFFFF by {
        assert(all[j] == cur[j]);
        if j < prev.len() {
            assert(cur[j] == prev[j]);
        } else {
            assert(cur[j] == unit[j - prev.len()]);
        }
    }
    let c = choose|k: int|
        0 <= k < all.len() && all[k] > 0xFFFF && forall|j: int| 0 <= j < k ==> all[j] <= 0xFFFF;
    assert(0 <= at < all.len() && all[at] > 0xFFFF && forall|j: int| 0 <= j < at ==> all[j] <= 0xFFFF);
    if c < at {
    } else if c > at {
        assert(all[at] <= 0xFFFF);
    }
}

proof fn lemma_concat_prefix(us: Seq<Seq<usize>>, n: int)
    requires
        0 <= n <= us.len(),
    ensures
        concat_units(us).len() >= concat_units(us.take(n)).len(),
        forall|j: int|
            0 <= j < concat_units(us.take(n)).len() ==> #[trigger] concat_units(us)[j]
                == concat_units(us.take(n))[j],
    decreases us.len() - n,
{
    if n < us.len() {
        lemma_concat_prefix(us, n + 1);
        assert(us.take(n + 1).drop_last() =~= us.take(n));
    } else {
        assert(us.take(n) =~= us);
    }
}

} // verus!
