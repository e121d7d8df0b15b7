use crate::pairs::contract;
use vstd::prelude::*;

verus! {

/// One entry of a gram table: either a single input symbol, or the
/// concatenation of two earlier entries, named by their indices.
#[derive(Debug, Clone, Copy, PartialEq, Eq)]
pub enum Gram<I> {
    Orig(I),
    Composition(usize, usize),
}

/// Distinct symbols have distinct code points.
pub proof fn lemma_code_injective(c: char, d: char)
    ensures
        c as u32 == d as u32 ==> c == d,
{
    assert(0 <= c as int <= 0x10FFFF);
    assert(0 <= d as int <= 0x10FFFF);
}

/// Every composite entry refers only to entries before it.
pub open spec fn is_topological(table: Seq<Gram<char>>) -> bool {
    forall|i: int|
        #![trigger table[i]]
        0 <= i < table.len() ==> match table[i] {
            Gram::Composition(a, b) => a < i && b < i,
            Gram::Orig(_) => true,
        }
}

/// The symbols that entry `id` stands for, fully expanded.
pub open spec fn expand(table: Seq<Gram<char>>, id: int) -> Seq<char>
    decreases id,
{
    if 0 <= id < table.len() {
        match table[id] {
            Gram::Orig(c) => seq![c],
            Gram::Composition(a, b) => if a < id && b < id {
                expand(table, a as int) + expand(table, b as int)
            } else {
                Seq::empty()
            },
        }
    } else {
        Seq::empty()
    }
}

/// The symbols that a sequence of ids stands for.
pub open spec fn flatten(table: Seq<Gram<char>>, ids: Seq<usize>) -> Seq<char>
    decreases ids.len(),
{
    if ids.len() == 0 {
        Seq::empty()
    } else {
        expand(table, ids[0] as int) + flatten(table, ids.drop_first())
    }
}

/// Every id of `ids` names an entry of `table`.
pub open spec fn ids_in_table(table: Seq<Gram<char>>, ids: Seq<usize>) -> bool {
    forall|i: int| 0 <= i < ids.len() ==> ids[i] < table.len()
}

/// Expansion distributes over concatenation.
pub proof fn lemma_flatten_append(table: Seq<Gram<char>>, s: Seq<usize>, t: Seq<usize>)
    ensures
        flatten(table, s + t) == flatten(table, s) + flatten(table, t),
    decreases s.len(),
{
    if s.len() == 0 {
        assert(s + t =~= t);
    } else {
        assert((s + t).drop_first() =~= s.drop_first() + t);
        lemma_flatten_append(table, s.drop_first(), t);
    }
}

/// A single id expands to its entry's symbols.
pub proof fn lemma_flatten_single(table: Seq<Gram<char>>, id: usize)
    ensures
        flatten(table, seq![id]) == expand(table, id as int),
{
    assert(seq![id].drop_first() =~= Seq::<usize>::empty());
    assert(flatten(table, Seq::<usize>::empty()) == Seq::<char>::empty());
}

/// A topological table expands each entry to at least one symbol.
pub proof fn lemma_expand_nonempty(table: Seq<Gram<char>>, id: int)
    requires
        is_topological(table),
        0 <= id < table.len(),
    ensures
        expand(table, id).len() >= 1,
    decreases id,
{
    match table[id] {
        Gram::Orig(_) => {},
        Gram::Composition(a, b) => {
            lemma_expand_nonempty(table, a as int);
        },
    }
}

/// Appending an entry leaves the expansion of every earlier entry as it was.
pub proof fn lemma_expand_push(table: Seq<Gram<char>>, g: Gram<char>, id: int)
    requires
        0 <= id < table.len(),
    ensures
        expand(table.push(g), id) == expand(table, id),
    decreases id,
{
    assert(table.push(g)[id] == table[id]);
    match table[id] {
        Gram::Orig(_) => {},
        Gram::Composition(a, b) => {
            if a < id && b < id {
                lemma_expand_push(table, g, a as int);
                lemma_expand_push(table, g, b as int);
            }
        },
    }
}

/// Appending an entry leaves the expansion of ids already in the table as it was.
pub proof fn lemma_flatten_push(table: Seq<Gram<char>>, g: Gram<char>, ids: Seq<usize>)
    requires
        ids_in_table(table, ids),
    ensures
        flatten(table.push(g), ids) == flatten(table, ids),
    decreases ids.len(),
{
    if ids.len() > 0 {
        lemma_expand_push(table, g, ids[0] as int);
        lemma_flatten_push(table, g, ids.drop_first());
    }
}

/// Contracting `(a, b)` into the entry that composes them leaves the expansion unchanged.
pub proof fn lemma_flatten_contract(table: Seq<Gram<char>>, ids: Seq<usize>, a: usize, b: usize, n: usize)
    requires
        n < table.len(),
        table[n as int] == Gram::<char>::Composition(a, b),
        a < n,
        b < n,
    ensures
        flatten(table, contract(ids, a, b, n)) == flatten(table, ids),
    decreases ids.len(),
{
    let c = contract(ids, a, b, n);
    if ids.len() >= 2 && ids[0] == a && ids[1] == b {
        let rest = ids.subrange(2, ids.len() as int);
        lemma_flatten_contract(table, rest, a, b, n);
        assert(c.drop_first() =~= contract(rest, a, b, n));
        assert(ids.drop_first().drop_first() =~= rest);
        let ea = expand(table, a as int);
        let eb = expand(table, b as int);
        let fr = flatten(table, rest);
        assert(flatten(table, ids.drop_first()) == eb + fr);
        assert(flatten(table, c) == (ea + eb) + fr);
        assert((ea + eb) + fr =~= ea + (eb + fr));
    } else if ids.len() >= 1 {
        lemma_flatten_contract(table, ids.drop_first(), a, b, n);
        assert(c.drop_first() =~= contract(ids.drop_first(), a, b, n));
    }
}

/// Contracting introduces no id but `n` and those already present.
pub proof fn lemma_contract_ids(ids: Seq<usize>, a: usize, b: usize, n: usize, bound: nat)
    requires
        forall|i: int| 0 <= i < ids.len() ==> ids[i] < bound,
        n < bound,
    ensures
        forall|i: int|
            0 <= i < contract(ids, a, b, n).len() ==> #[trigger] contract(ids, a, b, n)[i] < bound,
    decreases ids.len(),
{
    let c = contract(ids, a, b, n);
    if ids.len() >= 2 && ids[0] == a && ids[1] == b {
        let rest = contract(ids.subrange(2, ids.len() as int), a, b, n);
        lemma_contract_ids(ids.subrange(2, ids.len() as int), a, b, n, bound);
        assert forall|i: int| 0 <= i < c.len() implies #[trigger] c[i] < bound by {
            if i > 0 {
                assert(c[i] == rest[i - 1]);
            }
        }
    } else if ids.len() >= 1 {
        let rest = contract(ids.drop_first(), a, b, n);
        lemma_contract_ids(ids.drop_first(), a, b, n, bound);
        assert forall|i: int| 0 <= i < c.len() implies #[trigger] c[i] < bound by {
            if i > 0 {
                assert(c[i] == rest[i - 1]);
            } else {
                assert(c[0] == ids[0]);
            }
        }
    }
}

/// Ids that each name a literal expand to those literals' symbols.
pub proof fn lemma_flatten_literals(table: Seq<Gram<char>>, ids: Seq<usize>, s: Seq<char>)
    requires
        ids.len() == s.len(),
        forall|i: int|
            0 <= i < ids.len() ==> ids[i] < table.len() && #[trigger] table[ids[i] as int]
                == Gram::Orig(s[i]),
    ensures
        flatten(table, ids) == s,
    decreases ids.len(),
{
    if ids.len() > 0 {
        assert(table[ids[0] as int] == Gram::Orig(s[0]));
        assert forall|i: int| 0 <= i < ids.drop_first().len() implies ids.drop_first()[i]
            < table.len() && #[trigger] table[ids.drop_first()[i] as int] == Gram::Orig(
            s.drop_first()[i],
        ) by {
            assert(table[ids[i + 1] as int] == Gram::Orig(s[i + 1]));
        }
        lemma_flatten_literals(table, ids.drop_first(), s.drop_first());
        assert(s =~= seq![s[0]] + s.drop_first());
    }
}

/// In a topological table, ids expand to at least as many symbols.
pub proof fn lemma_flatten_len(table: Seq<Gram<char>>, ids: Seq<usize>)
    requires
        is_topological(table),
        ids_in_table(table, ids),
    ensures
        flatten(table, ids).len() >= ids.len(),
    decreases ids.len(),
{
    if ids.len() > 0 {
        lemma_expand_nonempty(table, ids[0] as int);
        lemma_flatten_len(table, ids.drop_first());
    }
}

} // verus!
