use crate::gram::{
    Gram, flatten, ids_in_table, is_topological, lemma_contract_ids, lemma_flatten_append,
    lemma_flatten_contract, lemma_flatten_len, lemma_flatten_literals, lemma_flatten_single,
    lemma_code_injective,
};
use crate::pairs::{contract, contract_pair};
use crate::train::{
    Threshold, encode_into_ngrams, train, merge_from, scan_symbols, literal_table, boundary_flags,
    lemma_scan_symbols,
};
use crate::pairs::{best_pair, can_merge, lemma_merge_shrinks};
use std::collections::HashMap;
use vstd::prelude::*;

verus! {

/// The last index at or before `n - 1` whose entry is the literal `c`.
pub open spec fn last_literal(table: Seq<Gram<char>>, c: char, n: int) -> Option<int>
    decreases n,
{
    if n <= 0 {
        None
    } else if table[n - 1] == Gram::Orig(c) {
        Some(n - 1)
    } else {
        last_literal(table, c, n - 1)
    }
}

/// The id under which the encoder finds symbol `c`: its last literal entry.
pub open spec fn literal_id(table: Seq<Gram<char>>, c: char) -> Option<int> {
    last_literal(table, c, table.len() as int)
}

/// Every symbol of `text` has a literal entry.
pub open spec fn all_known(table: Seq<Gram<char>>, text: Seq<char>) -> bool {
    forall|i: int| 0 <= i < text.len() ==> (#[trigger] literal_id(table, text[i])) is Some
}

pub open spec fn literal_ids(table: Seq<Gram<char>>, text: Seq<char>) -> Seq<usize> {
    text.map(|i: int, c: char| literal_id(table, c)->0 as usize)
}

/// `s` after applying, in table order, the contraction of each composite among the first `k`
/// entries.
pub open spec fn apply_merges(table: Seq<Gram<char>>, s: Seq<usize>, k: int) -> Seq<usize>
    decreases k,
{
    if k <= 0 {
        s
    } else {
        let prev = apply_merges(table, s, k - 1);
        match table[k - 1] {
            Gram::Composition(a, b) => contract(prev, a, b, (k - 1) as usize),
            Gram::Orig(_) => prev,
        }
    }
}

/// The ids that encoding `text` against `table` yields.
pub open spec fn encoding(table: Seq<Gram<char>>, text: Seq<char>) -> Seq<usize> {
    apply_merges(table, literal_ids(table, text), table.len() as int)
}

/// The first symbol of `text` that has no literal entry.
pub open spec fn first_unknown(table: Seq<Gram<char>>, text: Seq<char>) -> char {
    text[choose|i: int|
        0 <= i < text.len() && literal_id(table, text[i]) is None && forall|j: int|
            0 <= j < i ==> (#[trigger] literal_id(table, text[j])) is Some]
}

proof fn lemma_last_literal(table: Seq<Gram<char>>, c: char, n: int)
    requires
        n <= table.len(),
    ensures
        last_literal(table, c, n) matches Some(i) ==> 0 <= i < n && table[i] == Gram::Orig(c),
        last_literal(table, c, n) is None ==> forall|i: int| 0 <= i < n ==> table[i] != Gram::Orig(c),
    decreases n,
{
    if n > 0 {
        lemma_last_literal(table, c, n - 1);
    }
}

/// Encoding text whose every symbol has a literal entry, then expanding the result, gives the
/// text back.
pub proof fn lemma_round_trip(table: Seq<Gram<char>>, text: Seq<char>)
    requires
        is_topological(table),
        table.len() <= usize::MAX,
        all_known(table, text),
    ensures
        ids_in_table(table, encoding(table, text)),
        flatten(table, encoding(table, text)) == text,
{
    let ids = literal_ids(table, text);
    assert forall|i: int| 0 <= i < ids.len() implies ids[i] < table.len()
        && #[trigger] table[ids[i] as int] == Gram::Orig(text[i]) by {
        assert(literal_id(table, text[i]) is Some);
        lemma_last_literal(table, text[i], table.len() as int);
    }
    lemma_flatten_literals(table, ids, text);
    assert forall|i: int| 0 <= i < ids.len() implies ids[i] < table.len() by {
        assert(table[ids[i] as int] == Gram::Orig(text[i]));
    }
    lemma_apply_merges(table, ids, table.len() as int);
}

proof fn lemma_apply_merges(table: Seq<Gram<char>>, s: Seq<usize>, k: int)
    requires
        is_topological(table),
        table.len() <= usize::MAX,
        0 <= k <= table.len(),
        ids_in_table(table, s),
    ensures
        ids_in_table(table, apply_merges(table, s, k)),
        flatten(table, apply_merges(table, s, k)) == flatten(table, s),
    decreases k,
{
    if k > 0 {
        lemma_apply_merges(table, s, k - 1);
        let prev = apply_merges(table, s, k - 1);
        if let Gram::Composition(a, b) = table[k - 1] {
            lemma_flatten_contract(table, prev, a, b, (k - 1) as usize);
            lemma_contract_ids(prev, a, b, (k - 1) as usize, table.len());
        }
    }
}

proof fn lemma_merge_keeps_prefix(
    tokens: Seq<usize>,
    table: Seq<Gram<char>>,
    boundary: Seq<bool>,
    total: nat,
    t: Threshold,
)
    ensures
        merge_from(tokens, table, boundary, total, t).1.len() >= table.len(),
        forall|j: int|
            0 <= j < table.len() ==> #[trigger] merge_from(tokens, table, boundary, total, t).1[j]
                == table[j],
    decreases tokens.len(),
{
    if can_merge(tokens, boundary) {
        let p = best_pair(tokens, boundary);
        let n = table.len() as usize;
        lemma_merge_shrinks(tokens, boundary, p.0, p.1, n);
        let next = table.push(Gram::Composition(p.0, p.1));
        lemma_merge_keeps_prefix(contract(tokens, p.0, p.1, n), next, boundary, total, t);
        assert forall|j: int| 0 <= j < table.len() implies next[j] == table[j] by {}
    }
}

proof fn lemma_word_stream_has(words: Seq<Seq<char>>, k: int, m: int)
    requires
        0 <= k < words.len(),
        0 <= m < words[k].len(),
    ensures
        word_stream(words).contains(words[k][m]),
    decreases words.len(),
{
    let last = words.len() - 1;
    let prev = word_stream(words.drop_last());
    if k < last {
        lemma_word_stream_has(words.drop_last(), k, m);
        let i = choose|i: int| 0 <= i < prev.len() && prev[i] == words[k][m];
        assert(word_stream(words)[i] == prev[i]);
    } else {
        assert(word_stream(words)[prev.len() + m] == words[k][m]);
    }
}

/// Every symbol of the training input has a literal entry in the trained table.
proof fn lemma_trained_knows(inp: Seq<char>, boundaries: Seq<char>, t: Threshold, c: char)
    requires
        inp.len() <= usize::MAX,
        inp.contains(c),
    ensures
        literal_id(train(inp, boundaries, t).1, c) is Some,
{
    let scan = scan_symbols(inp);
    lemma_scan_symbols(inp);
    let i = choose|i: int| 0 <= i < inp.len() && inp[i] == c;
    let j = scan.0[i] as int;
    let lits = literal_table(scan.1);
    assert(lits[j] == Gram::Orig(c));
    lemma_merge_keeps_prefix(scan.0, lits, boundary_flags(scan.1, boundaries), inp.len(), t);
    let table = train(inp, boundaries, t).1;
    assert(table[j] == Gram::Orig(c));
    lemma_last_literal(table, c, table.len() as int);
}

/// A symbol that the table has no literal entry for.
#[derive(Debug, Clone, Copy, PartialEq, Eq)]
pub struct UnknownSymbol {
    pub symbol: char,
}

/// Expands gram ids back to the symbols they stand for, by repeated passes that replace each
/// composite with its two parts until only literals are left.
pub fn decompose_sequence(tokens: Vec<usize>, grams: &Vec<Gram<char>>) -> (r: Vec<char>)
    requires
        is_topological(grams@),
        ids_in_table(grams@, tokens@),
    ensures
        r@ == flatten(grams@, tokens@),
{
    let ghost target = flatten(grams@, tokens@);
    let mut tokens = tokens;
    proof {
        lemma_flatten_len(grams@, tokens@);
    }
    loop
        invariant
            is_topological(grams@),
            ids_in_table(grams@, tokens@),
            flatten(grams@, tokens@) == target,
            tokens@.len() <= target.len(),
        ensures
            ids_in_table(grams@, tokens@),
            flatten(grams@, tokens@) == target,
            forall|j: int| 0 <= j < tokens@.len() ==> (#[trigger] grams@[tokens@[j] as int]) is Orig,
        decreases target.len() - tokens@.len(),
    {
        let mut new_tokens: Vec<usize> = Vec::new();
        let mut all_origs = true;
        let mut j: usize = 0;
        while j < tokens.len()
            invariant
                is_topological(grams@),
                ids_in_table(grams@, tokens@),
                ids_in_table(grams@, new_tokens@),
                j <= tokens@.len(),
                flatten(grams@, new_tokens@) == flatten(grams@, tokens@.take(j as int)),
                new_tokens@.len() >= j,
                all_origs ==> new_tokens@ == tokens@.take(j as int),
                !all_origs ==> new_tokens@.len() > j,
                all_origs ==> forall|i: int|
                    0 <= i < j ==> (#[trigger] grams@[tokens@[i] as int]) is Orig,
            decreases tokens@.len() - j,
        {
            let tok = tokens[j];
            let ghost before = new_tokens@;
            proof {
                assert(tokens@.take(j + 1) =~= tokens@.take(j as int) + seq![tok]);
                lemma_flatten_append(grams@, tokens@.take(j as int), seq![tok]);
                lemma_flatten_single(grams@, tok);
            }
            match grams[tok] {
                Gram::Orig(_) => {
                    new_tokens.push(tok);
                    proof {
                        if all_origs {
                            assert(new_tokens@ =~= tokens@.take(j + 1));
                        }
                        assert(new_tokens@ =~= before + seq![tok]);
                        lemma_flatten_append(grams@, before, seq![tok]);
                    }
                },
                Gram::Composition(a, b) => {
                    new_tokens.push(a);
                    new_tokens.push(b);
                    all_origs = false;
                    proof {
                        assert(new_tokens@ =~= before + seq![a, b]);
                        lemma_flatten_append(grams@, before, seq![a, b]);
                        assert(seq![a, b] =~= seq![a] + seq![b]);
                        lemma_flatten_append(grams@, seq![a], seq![b]);
                        lemma_flatten_single(grams@, a);
                        lemma_flatten_single(grams@, b);
                    }
                },
            }
            j = j + 1;
        }
        proof {
            assert(tokens@.take(j as int) =~= tokens@);
            lemma_flatten_len(grams@, new_tokens@);
        }
        tokens = new_tokens;
        if all_origs {
            break;
        }
    }
    let mut out: Vec<char> = Vec::new();
    let mut j: usize = 0;
    while j < tokens.len()
        invariant
            j <= tokens@.len(),
            ids_in_table(grams@, tokens@),
            forall|i: int| 0 <= i < tokens@.len() ==> (#[trigger] grams@[tokens@[i] as int]) is Orig,
            out@ == flatten(grams@, tokens@.take(j as int)),
        decreases tokens@.len() - j,
    {
        let tok = tokens[j];
        proof {
            assert(tokens@.take(j + 1) =~= tokens@.take(j as int) + seq![tok]);
            lemma_flatten_append(grams@, tokens@.take(j as int), seq![tok]);
            lemma_flatten_single(grams@, tok);
            assert(grams@[tokens@[j as int] as int] is Orig);
        }
        match grams[tok] {
            Gram::Orig(ch) => {
                out.push(ch);
            },
            Gram::Composition(_, _) => {},
        }
        j = j + 1;
    }
    proof {
        assert(tokens@.take(j as int) =~= tokens@);
    }
    out
}

/// Relative frequency under which a vocabulary stops growing: one in two hundred.
pub const REL_LIM_NUMER: u64 = 1;

pub const REL_LIM_DENOM: u64 = 200;

/// The symbol placed after each word of a corpus; it never pairs.
pub const WORD_END: char = '\0';

/// The training input for a list of words: each word followed by the word end.
pub open spec fn word_stream(words: Seq<Seq<char>>) -> Seq<char>
    decreases words.len(),
{
    if words.len() == 0 {
        Seq::empty()
    } else {
        word_stream(words.drop_last()) + words.last() + seq![WORD_END]
    }
}

pub open spec fn word_threshold() -> Threshold {
    Threshold { numer: REL_LIM_NUMER, denom: REL_LIM_DENOM }
}

/// A frozen gram table together with an index from each symbol to its literal id.
pub struct Gramophone {
    grams: Vec<Gram<char>>,
    i2idx: HashMap<u32, usize>,
}

impl View for Gramophone {
    type V = Seq<Gram<char>>;

    closed spec fn view(&self) -> Seq<Gram<char>> {
        self.grams@
    }
}

impl Gramophone {
    /// The table is in topological order and the index finds each symbol's literal id.
    pub closed spec fn wf(&self) -> bool {
        &&& is_topological(self.grams@)
        &&& forall|c: char|
            #![trigger literal_id(self.grams@, c)]
            (self.i2idx@.contains_key(c as u32) <==> literal_id(self.grams@, c) is Some) && (
            self.i2idx@.contains_key(c as u32) ==> self.i2idx@[c as u32] == literal_id(
                self.grams@,
                c,
            )->0)
    }

    /// A well-formed gramophone's table is in topological order.
    pub proof fn lemma_wf(&self)
        requires
            self.wf(),
        ensures
            is_topological(self@),
    {
    }

    /// Wraps a table in topological order, indexing its literals.
    pub fn new(grams: Vec<Gram<char>>) -> (r: Self)
        requires
            is_topological(grams@),
        ensures
            r.wf(),
            r@ == grams@,
    {
        let mut i2idx: HashMap<u32, usize> = HashMap::new();
        let mut k: usize = 0;
        while k < grams.len()
            invariant
                k <= grams@.len(),
                forall|c: char|
                    #![trigger last_literal(grams@, c, k as int)]
                    (i2idx@.contains_key(c as u32) <==> last_literal(grams@, c, k as int) is Some)
                        && (i2idx@.contains_key(c as u32) ==> i2idx@[c as u32] == last_literal(
                        grams@,
                        c,
                        k as int,
                    )->0),
            decreases grams@.len() - k,
        {
            if let Gram::Orig(ch) = grams[k] {
                i2idx.insert(ch as u32, k);
                proof {
                    assert forall|c: char|
                        #![trigger last_literal(grams@, c, k + 1)]
                        (i2idx@.contains_key(c as u32) <==> last_literal(grams@, c, k + 1) is Some)
                            && (i2idx@.contains_key(c as u32) ==> i2idx@[c as u32] == last_literal(
                            grams@,
                            c,
                            k + 1,
                        )->0) by {
                        lemma_code_injective(c, ch);
                        assert(last_literal(grams@, c, k + 1) == if c == ch {
                            Some(k as int)
                        } else {
                            last_literal(grams@, c, k as int)
                        });
                    }
                }
            } else {
                proof {
                    assert forall|c: char|
                        #![trigger last_literal(grams@, c, k + 1)]
                        last_literal(grams@, c, k + 1) == last_literal(grams@, c, k as int) by {}
                }
            }
            k = k + 1;
        }
        Gramophone { grams, i2idx }
    }

    /// Trains a table on `words`, each followed by the word end, which never pairs, and stops
    /// once the most frequent pair makes up less than one two-hundredth of the input.
    pub fn from_word_iter(words: &Vec<Vec<char>>) -> (r: Self)
        ensures
            r.wf(),
            r@ == train(word_stream(words.deep_view()), seq![WORD_END], word_threshold()).1,
            word_stream(words.deep_view()).len() <= usize::MAX,
            forall|c: char|
                word_stream(words.deep_view()).contains(c) ==> (#[trigger] literal_id(r@, c)) is Some,
    {
        let mut inp: Vec<char> = Vec::new();
        let mut i: usize = 0;
        while i < words.len()
            invariant
                i <= words@.len(),
                inp@ == word_stream(words.deep_view().take(i as int)),
            decreases words@.len() - i,
        {
            let word = &words[i];
            let ghost before = inp@;
            let mut j: usize = 0;
            while j < word.len()
                invariant
                    j <= word@.len(),
                    inp@ == before + word@.take(j as int),
                decreases word@.len() - j,
            {
                inp.push(word[j]);
                proof {
                    assert(word@.take(j + 1) =~= word@.take(j as int).push(word@[j as int]));
                    assert(inp@ =~= before + word@.take(j + 1));
                }
                j = j + 1;
            }
            inp.push(WORD_END);
            proof {
                let ws = words.deep_view();
                assert(ws.take(i + 1).drop_last() =~= ws.take(i as int));
                assert(ws.take(i + 1).last() == word@);
                assert(word@.take(j as int) =~= word@);
                assert(inp@ =~= before + word@ + seq![WORD_END]);
            }
            i = i + 1;
        }
        proof {
            assert(inp.len() == inp@.len());
            assert(words.deep_view().take(i as int) =~= words.deep_view());
        }
        let mut boundaries: Vec<char> = Vec::new();
        boundaries.push(WORD_END);
        proof {
            assert(boundaries@ =~= seq![WORD_END]);
        }
        let ghost stream = inp@;
        let (_, grams, _) = encode_into_ngrams(
            inp,
            Threshold { numer: REL_LIM_NUMER, denom: REL_LIM_DENOM },
            &boundaries,
        );
        proof {
            assert forall|c: char| stream.contains(c) implies (#[trigger] literal_id(grams@, c)) is Some by {
                lemma_trained_knows(stream, seq![WORD_END], word_threshold(), c);
            }
        }
        Gramophone::new(grams)
    }

    /// The gram table.
    pub fn grams(&self) -> (r: &Vec<Gram<char>>)
        ensures
            r@ == self@,
    {
        &self.grams
    }

    /// Encodes `text`: each symbol becomes its literal id, then every composite of the table is
    /// contracted, in table order. Fails on the first symbol without a literal entry.
    pub fn encode_text(&self, text: &Vec<char>) -> (r: Result<Vec<usize>, UnknownSymbol>)
        requires
            self.wf(),
        ensures
            match r {
                Ok(ids) => all_known(self@, text@) && ids@ == encoding(self@, text@) && ids_in_table(self@, ids@),
                Err(e) => !all_known(self@, text@) && e.symbol == first_unknown(self@, text@),
            },
    {
        let ghost table = self.grams@;
        let mut tokens: Vec<usize> = Vec::new();
        let mut i: usize = 0;
        while i < text.len()
            invariant
                self.wf(),
                table == self.grams@,
                i <= text@.len(),
                forall|j: int| 0 <= j < i ==> (#[trigger] literal_id(table, text@[j])) is Some,
                tokens@ == literal_ids(table, text@.take(i as int)),
            decreases text@.len() - i,
        {
            let ch = text[i];
            match self.i2idx.get(&(ch as u32)) {
                Some(idx) => {
                    tokens.push(*idx);
                    proof {
                        assert(tokens@ =~= literal_ids(table, text@.take(i + 1)));
                    }
                },
                None => {
                    proof {
                        let w = choose|k: int|
                            0 <= k < text@.len() && literal_id(table, text@[k]) is None && forall|j: int|
                                0 <= j < k ==> (#[trigger] literal_id(table, text@[j])) is Some;
                        assert(0 <= i < text@.len() && literal_id(table, text@[i as int]) is None && forall|j: int|
                                0 <= j < i ==> (#[trigger] literal_id(table, text@[j])) is Some);
                        if w < i {
                            assert(literal_id(table, text@[w]) is Some);
                        } else if w > i {
                            assert(literal_id(table, text@[i as int]) is Some);
                        }
                    }
                    return Err(UnknownSymbol { symbol: ch });
                },
            }
            i = i + 1;
        }
        proof {
            assert(self.grams.len() == self.grams@.len());
            assert(text@.take(i as int) =~= text@);
            lemma_round_trip(table, text@);
        }
        let mut k: usize = 0;
        while k < self.grams.len()
            invariant
                table == self.grams@,
                k <= table.len(),
                tokens@ == apply_merges(table, literal_ids(table, text@), k as int),
            decreases table.len() - k,
        {
            if let Gram::Composition(a, b) = self.grams[k] {
                tokens = contract_pair(&tokens, a, b, k);
            }
            k = k + 1;
        }
        Ok(tokens)
    }
}

/// Trains one table on all `sents`, each followed by the word end, and encodes each sentence
/// against it.
pub fn gramify_sentences(sents: &Vec<Vec<char>>) -> (r: (Vec<Vec<usize>>, Gramophone))
    ensures
        r.1.wf(),
        r.1@ == train(word_stream(sents.deep_view()), seq![WORD_END], word_threshold()).1,
        r.0@.len() == sents@.len(),
        forall|i: int| 0 <= i < sents@.len() ==> #[trigger] r.0@[i]@ == encoding(r.1@, sents@[i]@),
        forall|i: int| 0 <= i < sents@.len() ==> all_known(r.1@, #[trigger] sents@[i]@),
{
    let gram = Gramophone::from_word_iter(sents);
    let ghost ws = sents.deep_view();
    let ghost stream = word_stream(ws);
    let mut out: Vec<Vec<usize>> = Vec::new();
    let mut i: usize = 0;
    while i < sents.len()
        invariant
            gram.wf(),
            ws == sents.deep_view(),
            stream == word_stream(ws),
            forall|c: char| stream.contains(c) ==> (#[trigger] literal_id(gram@, c)) is Some,
            gram@ == train(stream, seq![WORD_END], word_threshold()).1,
            i <= sents@.len(),
            out@.len() == i,
            forall|k: int| 0 <= k < i ==> #[trigger] out@[k]@ == encoding(gram@, sents@[k]@),
            forall|k: int| 0 <= k < i ==> all_known(gram@, #[trigger] sents@[k]@),
        decreases sents@.len() - i,
    {
        let sent = &sents[i];
        proof {
            assert forall|m: int| 0 <= m < sent@.len() implies (#[trigger] literal_id(
                gram@,
                sent@[m],
            )) is Some by {
                assert(ws[i as int] == sent@);
                lemma_word_stream_has(ws, i as int, m);
            }
        }
        if let Ok(ids) = gram.encode_text(sent) {
            out.push(ids);
        }
        i = i + 1;
    }
    (out, gram)
}

} // verus!
