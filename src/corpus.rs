use std::collections::HashMap;
use vstd::prelude::*;

verus! {

/// The value of a run of ASCII decimal digits.
pub open spec fn decimal_value(s: Seq<u8>) -> int
    decreases s.len(),
{
    if s.len() == 0 {
        0
    } else {
        decimal_value(s.drop_last()) * 10 + (s.last() - 48)
    }
}

pub open spec fn all_digits(s: Seq<u8>) -> bool {
    forall|i: int| 0 <= i < s.len() ==> 48 <= #[trigger] s[i] <= 57
}

/// The digits of an id field: everything after an optional leading `+`.
pub open spec fn id_digits(s: Seq<u8>) -> Seq<u8> {
    if s.len() > 0 && s[0] == 43 {
        s.drop_first()
    } else {
        s
    }
}

/// The id that the field `s` holds: one or more decimal digits, optionally after a `+`, whose
/// value fits in 32 bits.
pub open spec fn id_value(s: Seq<u8>) -> Option<u32> {
    let d = id_digits(s);
    if d.len() > 0 && all_digits(d) && decimal_value(d) <= u32::MAX {
        Some(decimal_value(d) as u32)
    } else {
        None
    }
}

proof fn lemma_decimal_grows(s: Seq<u8>, n: int)
    requires
        all_digits(s),
        0 <= n <= s.len(),
    ensures
        0 <= decimal_value(s.take(n)) <= decimal_value(s),
    decreases s.len() - n,
{
    if n < s.len() {
        lemma_decimal_grows(s, n + 1);
        assert(s.take(n + 1).drop_last() =~= s.take(n));
        lemma_decimal_nonneg(s.take(n));
    } else {
        assert(s.take(n) =~= s);
        lemma_decimal_nonneg(s);
    }
}

proof fn lemma_decimal_nonneg(s: Seq<u8>)
    requires
        all_digits(s),
    ensures
        decimal_value(s) >= 0,
    decreases s.len(),
{
    if s.len() > 0 {
        assert(all_digits(s.drop_last())) by {
            assert forall|i: int| 0 <= i < s.drop_last().len() implies 48 <= #[trigger] s.drop_last()[i] <= 57 by {
                assert(s.drop_last()[i] == s[i]);
            }
        }
        lemma_decimal_nonneg(s.drop_last());
    }
}

/// Reads an id field as `str::parse::<u32>` does: digits, optionally after a `+`.
pub fn parse_id(field: &Vec<u8>) -> (r: Option<u32>)
    ensures
        r == id_value(field@),
{
    let len = field.len();
    let start: usize = if len > 0 && field[0] == 43 { 1 } else { 0 };
    let ghost d = id_digits(field@);
    proof {
        assert(d =~= field@.subrange(start as int, len as int));
    }
    if start >= len {
        return None;
    }
    let mut value: u64 = 0;
    let mut i: usize = start;
    while i < len
        invariant
            start <= i <= len,
            len == field@.len(),
            d == field@.subrange(start as int, len as int),
            d == id_digits(field@),
            all_digits(d.take(i - start)),
            value == decimal_value(d.take(i - start)),
            value <= u32::MAX,
        decreases len - i,
    {
        let b = field[i];
        let ghost prefix = d.take(i - start);
        let ghost next = d.take(i + 1 - start);
        proof {
            assert(next.drop_last() =~= prefix);
            assert(next.last() == b);
        }
        if b < 48 || b > 57 {
            proof {
                assert(d[i - start] == b);
            }
            return None;
        }
        let v = value * 10 + (b - 48) as u64;
        proof {
            assert(all_digits(next)) by {
                assert forall|j: int| 0 <= j < next.len() implies 48 <= #[trigger] next[j] <= 57 by {
                    if j < prefix.len() {
                        assert(next[j] == prefix[j]);
                    }
                }
            }
        }
        if v > 0xFFFF_FFFF {
            proof {
                if all_digits(d) {
                    lemma_decimal_grows(d, i + 1 - start);
                }
            }
            return None;
        }
        value = v;
        i = i + 1;
    }
    proof {
        assert(d.take(i - start) =~= d);
    }
    Some(value as u32)
}

/// Which language a linked sentence is in, besides the primary one.
#[derive(Debug, Clone, Copy, PartialEq, Eq)]
pub enum LinkKind {
    Secondary,
    Auxiliary,
}

/// A link from a primary sentence to a secondary or auxiliary one.
#[derive(Debug, Clone, Copy, PartialEq, Eq)]
pub struct Link {
    pub prim: u32,
    pub other: u32,
    pub kind: LinkKind,
}

/// The link that the pair `(prim, other)` makes read in this direction, if any: `prim` must be
/// a primary sentence and `other` exactly one of a secondary or an auxiliary sentence.
pub open spec fn directed_link(prim: u32, other: u32, in_prim: Set<u32>, in_sec: Set<u32>, in_aux: Set<u32>) -> Option<Link> {
    if in_prim.contains(prim) && in_sec.contains(other) && !in_aux.contains(other) {
        Some(Link { prim, other, kind: LinkKind::Secondary })
    } else if in_prim.contains(prim) && !in_sec.contains(other) && in_aux.contains(other) {
        Some(Link { prim, other, kind: LinkKind::Auxiliary })
    } else {
        None
    }
}

/// The link a record `first, second` makes: read as written, or else reversed.
pub open spec fn link_of(first: u32, second: u32, in_prim: Set<u32>, in_sec: Set<u32>, in_aux: Set<u32>) -> Option<Link> {
    match directed_link(first, second, in_prim, in_sec, in_aux) {
        Some(l) => Some(l),
        None => directed_link(second, first, in_prim, in_sec, in_aux),
    }
}

fn directed<V>(
    prim: u32,
    other: u32,
    prim_language: &HashMap<u32, V>,
    sec_language: &HashMap<u32, V>,
    aux_language: &HashMap<u32, V>,
) -> (r: Option<Link>)
    ensures
        r == directed_link(prim, other, prim_language@.dom(), sec_language@.dom(), aux_language@.dom()),
{
    let p = prim_language.contains_key(&prim);
    let s = sec_language.contains_key(&other);
    let a = aux_language.contains_key(&other);
    if p && s && !a {
        Some(Link { prim, other, kind: LinkKind::Secondary })
    } else if p && !s && a {
        Some(Link { prim, other, kind: LinkKind::Auxiliary })
    } else {
        None
    }
}

/// Classifies a link record between sentences `first` and `second`, keyed by id in each
/// language's sentence map.
pub fn classify_link<V>(
    first: u32,
    second: u32,
    prim_language: &HashMap<u32, V>,
    sec_language: &HashMap<u32, V>,
    aux_language: &HashMap<u32, V>,
) -> (r: Option<Link>)
    ensures
        r == link_of(first, second, prim_language@.dom(), sec_language@.dom(), aux_language@.dom()),
{
    match directed(first, second, prim_language, sec_language, aux_language) {
        Some(l) => Some(l),
        None => directed(second, first, prim_language, sec_language, aux_language),
    }
}

} // verus!
