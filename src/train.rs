use crate::gram::{
    Gram, expand, flatten, ids_in_table, is_topological, lemma_flatten_contract,
    lemma_flatten_push, lemma_flatten_literals, lemma_contract_ids, lemma_code_injective,
};
use crate::pairs::{
    best_pair, can_merge, contract, contract_pair, get_pair_freq, lemma_count_witness,
    lemma_merge_shrinks, mergeable, most_frequent_pair, pair_at, pair_count,
};
use crate::codec::table_bytes;
use std::collections::HashMap;
use vstd::prelude::*;

verus! {

/// The ratio `numer / denom` under which a pair's relative frequency stops training.
#[derive(Debug, Clone, Copy, PartialEq, Eq)]
pub struct Threshold {
    pub numer: u64,
    pub denom: u64,
}

impl Threshold {
    /// A ratio in (0, 1].
    pub open spec fn wf(self) -> bool {
        0 < self.numer <= self.denom
    }
}

/// Why training stopped.
#[derive(Debug, Clone, Copy, PartialEq, Eq)]
pub enum StopReason {
    /// No pair was left to merge.
    Exhausted,
    /// The most frequent pair occurred too rarely.
    BelowThreshold,
}

/// `count / total` lies under the threshold.
pub open spec fn below_threshold(count: nat, total: nat, t: Threshold) -> bool {
    count * t.denom < t.numer * total
}

/// Distinct symbols of `s` in order of first appearance, with the id given to each position.
pub open spec fn scan_symbols(s: Seq<char>) -> (Seq<usize>, Seq<char>)
    decreases s.len(),
{
    if s.len() == 0 {
        (Seq::empty(), Seq::empty())
    } else {
        let prev = scan_symbols(s.drop_last());
        let c = s.last();
        if prev.1.contains(c) {
            (prev.0.push(prev.1.index_of(c) as usize), prev.1)
        } else {
            (prev.0.push(prev.1.len() as usize), prev.1.push(c))
        }
    }
}

pub open spec fn literal_table(lits: Seq<char>) -> Seq<Gram<char>> {
    lits.map(|i: int, c: char| Gram::Orig(c))
}

pub open spec fn boundary_flags(lits: Seq<char>, boundaries: Seq<char>) -> Seq<bool> {
    lits.map(|i: int, c: char| boundaries.contains(c))
}

/// Greedy merging from a token stream and table until no pair is left or the best pair is
/// too rare; `total` is the length of the input before any merge.
pub open spec fn merge_from(
    tokens: Seq<usize>,
    table: Seq<Gram<char>>,
    boundary: Seq<bool>,
    total: nat,
    t: Threshold,
) -> (Seq<usize>, Seq<Gram<char>>, StopReason)
    decreases tokens.len(),
{
    if !can_merge(tokens, boundary) {
        (tokens, table, StopReason::Exhausted)
    } else {
        let p = best_pair(tokens, boundary);
        let count = pair_count(tokens, boundary, p.0, p.1);
        if below_threshold(count, total, t) {
            (tokens, table, StopReason::BelowThreshold)
        } else {
            let n = table.len() as usize;
            proof {
                lemma_merge_shrinks(tokens, boundary, p.0, p.1, n);
            }
            merge_from(
                contract(tokens, p.0, p.1, n),
                table.push(Gram::Composition(p.0, p.1)),
                boundary,
                total,
                t,
            )
        }
    }
}

/// The token stream, gram table and stop reason that training on `inp` yields.
pub open spec fn train(inp: Seq<char>, boundaries: Seq<char>, t: Threshold) -> (
    Seq<usize>,
    Seq<Gram<char>>,
    StopReason,
) {
    let scan = scan_symbols(inp);
    merge_from(
        scan.0,
        literal_table(scan.1),
        boundary_flags(scan.1, boundaries),
        inp.len(),
        t,
    )
}

/// Training is deterministic: two runs on the same input with the same boundary symbols and
/// threshold give the same stream, the same stop reason and byte-identical serialized tables.
pub proof fn lemma_training_deterministic(
    inp: Seq<char>,
    boundaries: Seq<char>,
    t: Threshold,
    first: (Seq<usize>, Seq<Gram<char>>, StopReason),
    second: (Seq<usize>, Seq<Gram<char>>, StopReason),
)
    requires
        first == train(inp, boundaries, t),
        second == train(inp, boundaries, t),
    ensures
        first.0 == second.0,
        first.2 == second.2,
        table_bytes(first.1) == table_bytes(second.1),
{
}

/// No composite entry expands to a sequence that holds a boundary symbol.
pub open spec fn boundary_free(table: Seq<Gram<char>>, boundaries: Seq<char>) -> bool {
    forall|i: int, k: int|
        0 <= i < table.len() && table[i] is Composition && 0 <= k < expand(table, i).len()
            ==> !boundaries.contains(#[trigger] expand(table, i)[k])
}

/// The table starts with the literals `lits`, flagged as `boundary` says, and continues with
/// composites of mergeable ids only.
pub open spec fn layered(table: Seq<Gram<char>>, lits: Seq<char>, boundary: Seq<bool>, boundaries: Seq<char>) -> bool {
    &&& boundary == boundary_flags(lits, boundaries)
    &&& lits.len() <= table.len()
    &&& forall|j: int| 0 <= j < lits.len() ==> #[trigger] table[j] == Gram::Orig(lits[j])
    &&& forall|j: int|
        lits.len() <= j < table.len() ==> (#[trigger] table[j] matches Gram::Composition(a, b)
            && mergeable(boundary, a) && mergeable(boundary, b))
}

proof fn lemma_mergeable_expansion(
    table: Seq<Gram<char>>,
    lits: Seq<char>,
    boundary: Seq<bool>,
    boundaries: Seq<char>,
    id: usize,
)
    requires
        is_topological(table),
        layered(table, lits, boundary, boundaries),
        id < table.len(),
        mergeable(boundary, id),
    ensures
        forall|k: int|
            0 <= k < expand(table, id as int).len() ==> !boundaries.contains(
                #[trigger] expand(table, id as int)[k],
            ),
    decreases id,
{
    let e = expand(table, id as int);
    if id < lits.len() {
        assert(table[id as int] == Gram::Orig(lits[id as int]));
        assert(boundary[id as int] == boundaries.contains(lits[id as int]));
        assert(e == seq![lits[id as int]]);
    } else {
        assert(table[id as int] matches Gram::Composition(a, b) && mergeable(boundary, a)
            && mergeable(boundary, b));
        if let Gram::Composition(a, b) = table[id as int] {
            lemma_mergeable_expansion(table, lits, boundary, boundaries, a);
            lemma_mergeable_expansion(table, lits, boundary, boundaries, b);
            let ea = expand(table, a as int);
            let eb = expand(table, b as int);
            assert(e == ea + eb);
            assert forall|k: int| 0 <= k < e.len() implies !boundaries.contains(#[trigger] e[k]) by {
                if k < ea.len() {
                    assert(e[k] == ea[k]);
                } else {
                    assert(e[k] == eb[k - ea.len()]);
                }
            }
        }
    }
}

fn contains_symbol(symbols: &Vec<char>, c: char) -> (r: bool)
    ensures
        r == symbols@.contains(c),
{
    let mut i: usize = 0;
    while i < symbols.len()
        invariant
            i <= symbols.len(),
            forall|j: int| 0 <= j < i ==> symbols@[j] != c,
        decreases symbols.len() - i,
    {
        if symbols[i] == c {
            return true;
        }
        i = i + 1;
    }
    false
}

pub(crate) proof fn lemma_scan_symbols(s: Seq<char>)
    requires
        s.len() <= usize::MAX,
    ensures
        scan_symbols(s).0.len() == s.len(),
        scan_symbols(s).1.len() <= s.len(),
        forall|i: int|
            0 <= i < s.len() ==> #[trigger] scan_symbols(s).0[i] < scan_symbols(s).1.len()
                && scan_symbols(s).1[scan_symbols(s).0[i] as int] == s[i],
    decreases s.len(),
{
    if s.len() > 0 {
        let prev = scan_symbols(s.drop_last());
        lemma_scan_symbols(s.drop_last());
        let c = s.last();
        let cur = scan_symbols(s);
        if prev.1.contains(c) {
            let k = prev.1.index_of(c);
            assert(prev.1[k] == c);
            assert(cur.0[s.len() - 1] == k);
        } else {
            assert(cur.1[prev.1.len() as int] == c);
        }
        assert forall|i: int| 0 <= i < s.len() implies #[trigger] cur.0[i] < cur.1.len()
            && cur.1[cur.0[i] as int] == s[i] by {
            if i < s.len() - 1 {
                assert(cur.0[i] == prev.0[i]);
                assert(s.drop_last()[i] == s[i]);
                assert(prev.1[prev.0[i] as int] == s[i]);
                assert(cur.1[prev.0[i] as int] == prev.1[prev.0[i] as int]);
            }
        }
    }
}

proof fn lemma_boundary_free(table: Seq<Gram<char>>, lits: Seq<char>, boundary: Seq<bool>, boundaries: Seq<char>)
    requires
        table.len() <= usize::MAX,
        is_topological(table),
        layered(table, lits, boundary, boundaries),
    ensures
        boundary_free(table, boundaries),
{
    assert forall|i: int, k: int|
        0 <= i < table.len() && table[i] is Composition && 0 <= k < expand(table, i).len()
            implies !boundaries.contains(#[trigger] expand(table, i)[k]) by {
        if i < lits.len() {
            assert(table[i] == Gram::Orig(lits[i]));
        }
        assert(boundary.len() == lits.len());
        lemma_mergeable_expansion(table, lits, boundary, boundaries, i as usize);
    }
}

fn is_below_threshold(count: usize, total: usize, t: Threshold) -> (r: bool)
    ensures
        r == below_threshold(count as nat, total as nat, t),
{
    let ghost m: int = 0xffff_ffff_ffff_ffff;
    assert((count as int) * (t.denom as int) <= m * m) by (nonlinear_arith)
        requires
            0 <= count <= m,
            0 <= t.denom <= m,
    ;
    assert((t.numer as int) * (total as int) <= m * m) by (nonlinear_arith)
        requires
            0 <= t.numer <= m,
            0 <= total <= m,
    ;
    let lhs = (count as u128) * (t.denom as u128);
    let rhs = (t.numer as u128) * (total as u128);
    lhs < rhs
}

/// Trains a gram table on `inp`. Each distinct symbol first gets a literal entry, in order of
/// first appearance; symbols found in `boundaries` never pair. Then, while some pair occurs,
/// the most frequent one (ties to the lowest `(left, right)`) becomes a new composite entry and
/// every occurrence of it is contracted, unless its count relative to `inp.len()` is under
/// `rel_lim`. Returns the final token stream, the table and why training stopped.
pub fn encode_into_ngrams(inp: Vec<char>, rel_lim: Threshold, boundaries: &Vec<char>) -> (r: (
    Vec<usize>,
    Vec<Gram<char>>,
    StopReason,
))
    ensures
        (r.0@, r.1@, r.2) == train(inp@, boundaries@, rel_lim),
        is_topological(r.1@),
        ids_in_table(r.1@, r.0@),
        flatten(r.1@, r.0@) == inp@,
        boundary_free(r.1@, boundaries@),
{
    let (mut tokens, mut grams, flags) = build_symbol_table(&inp, boundaries);
    let total = inp.len();
    let ghost lits = scan_symbols(inp@).1;
    proof {
        lemma_scan_symbols(inp@);
        assert forall|i: int| 0 <= i < tokens@.len() implies tokens@[i] < grams@.len()
            && #[trigger] grams@[tokens@[i] as int] == Gram::Orig(inp@[i]) by {
            assert(lits[tokens@[i] as int] == inp@[i]);
        }
        lemma_flatten_literals(grams@, tokens@, inp@);
    }
    loop
        invariant
            total == inp@.len(),
            layered(grams@, lits, flags@, boundaries@),
            is_topological(grams@),
            ids_in_table(grams@, tokens@),
            flatten(grams@, tokens@) == inp@,
            merge_from(tokens@, grams@, flags@, total as nat, rel_lim) == train(
                inp@,
                boundaries@,
                rel_lim,
            ),
        decreases tokens.len(),
    {
        let freq = get_pair_freq(&tokens, &flags);
        match most_frequent_pair(&tokens, &flags, &freq) {
            None => {
                proof {
                    assert(grams.len() == grams@.len());
                    lemma_boundary_free(grams@, lits, flags@, boundaries@);
                }
                return (tokens, grams, StopReason::Exhausted);
            },
            Some((a, b, count)) => {
                if is_below_threshold(count, total, rel_lim) {
                    proof {
                        assert(grams.len() == grams@.len());
                    lemma_boundary_free(grams@, lits, flags@, boundaries@);
                    }
                    return (tokens, grams, StopReason::BelowThreshold);
                }
                let n = grams.len();
                let ghost old_tokens = tokens@;
                let ghost old_grams = grams@;
                proof {
                    lemma_count_witness(old_tokens, flags@, a, b, old_tokens.len() as int);
                    let j = choose|j: int|
                        0 <= j < old_tokens.len() && pair_at(old_tokens, flags@, j) && old_tokens[j]
                            == a && old_tokens[j + 1] == b;
                    assert(a < n && b < n);
                    lemma_merge_shrinks(old_tokens, flags@, a, b, n);
                }
                grams.push(Gram::Composition(a, b));
                let next = contract_pair(&tokens, a, b, n);
                proof {
                    let g = Gram::Composition(a, b);
                    lemma_flatten_push(old_grams, g, old_tokens);
                    lemma_flatten_contract(grams@, old_tokens, a, b, n);
                    lemma_contract_ids(old_tokens, a, b, n, grams@.len());
                    assert(forall|j: int| 0 <= j < old_grams.len() ==> grams@[j] == old_grams[j]);
                }
                tokens = next;
            },
        }
    }
}

/// Gives each distinct symbol of `inp` an id, in order of first appearance. Returns the id of
/// every position, the table of literals, and for each literal whether it is a boundary symbol.
pub fn build_symbol_table(inp: &Vec<char>, boundaries: &Vec<char>) -> (r: (
    Vec<usize>,
    Vec<Gram<char>>,
    Vec<bool>,
))
    ensures
        r.0@ == scan_symbols(inp@).0,
        r.1@ == literal_table(scan_symbols(inp@).1),
        r.2@ == boundary_flags(scan_symbols(inp@).1, boundaries@),
{
    let mut tokens: Vec<usize> = Vec::new();
    let mut grams: Vec<Gram<char>> = Vec::new();
    let mut flags: Vec<bool> = Vec::new();
    let mut i2tok: HashMap<u32, usize> = HashMap::new();
    let ghost mut lits: Seq<char> = Seq::empty();
    let mut i: usize = 0;
    while i < inp.len()
        invariant
            i <= inp.len(),
            (tokens@, lits) == scan_symbols(inp@.take(i as int)),
            grams@ == literal_table(lits),
            flags@ == boundary_flags(lits, boundaries@),
            forall|j: int, k: int| 0 <= j < k < lits.len() ==> lits[j] != lits[k],
            forall|j: int|
                0 <= j < lits.len() ==> #[trigger] i2tok@.contains_key(lits[j] as u32)
                    && i2tok@[lits[j] as u32] == j,
            forall|key: u32|
                #[trigger] i2tok@.contains_key(key) ==> exists|j: int|
                    0 <= j < lits.len() && lits[j] as u32 == key,
        decreases inp.len() - i,
    {
        let c = inp[i];
        let key = c as u32;
        proof {
            assert(inp@.take(i + 1).drop_last() =~= inp@.take(i as int));
            assert(inp@.take(i + 1).last() == c);
        }
        match i2tok.get(&key) {
            Some(idx) => {
                proof {
                    let j = choose|j: int| 0 <= j < lits.len() && lits[j] as u32 == key;
                    lemma_code_injective(lits[j], c);
                    assert(lits.contains(c));
                    let k = lits.index_of(c);
                    assert(lits[k] == c);
                    assert(k == j);
                }
                tokens.push(*idx);
            },
            None => {
                proof {
                    if lits.contains(c) {
                        let j = choose|j: int| 0 <= j < lits.len() && lits[j] == c;
                        assert(i2tok@.contains_key(lits[j] as u32));
                    }
                }
                let idx = grams.len();
                let ghost old_map = i2tok@;
                i2tok.insert(key, idx);
                grams.push(Gram::Orig(c));
                let is_boundary = contains_symbol(boundaries, c);
                flags.push(is_boundary);
                let ghost old_lits = lits;
                proof {
                    lits = lits.push(c);
                    assert forall|j: int| 0 <= j < lits.len() implies #[trigger] i2tok@.contains_key(
                        lits[j] as u32,
                    ) && i2tok@[lits[j] as u32] == j by {
                        if j < old_lits.len() {
                            assert(lits[j] == old_lits[j]);
                            assert(old_lits[j] != c);
                            lemma_code_injective(old_lits[j], c);
                            assert(old_map.contains_key(old_lits[j] as u32));
                        }
                    }
                    assert(grams@ =~= literal_table(lits));
                    assert(flags@ =~= boundary_flags(lits, boundaries@));
                    assert forall|key2: u32| #[trigger] i2tok@.contains_key(key2) implies exists|j: int|
                        0 <= j < lits.len() && lits[j] as u32 == key2 by {
                        if key2 == key {
                            assert(lits[lits.len() - 1] == c);
                            assert(lits[lits.len() - 1] as u32 == key2);
                        } else {
                            assert(old_map.contains_key(key2));
                            let j = choose|j: int| 0 <= j < old_lits.len() && old_lits[j] as u32 == key2;
                            assert(lits[j] == old_lits[j]);
                        }
                    }
                }
                tokens.push(idx);
            },
        }
        i = i + 1;
    }
    proof {
        assert(inp@.take(inp.len() as int) =~= inp@);
    }
    (tokens, grams, flags)
}

} // verus!
