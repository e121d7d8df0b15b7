use std::collections::HashMap;
use vstd::prelude::*;

verus! {

/// An id may take part in a pair unless it is flagged as a boundary.
pub open spec fn mergeable(boundary: Seq<bool>, id: usize) -> bool {
    id >= boundary.len() || !boundary[id as int]
}

/// Positions `i` and `i + 1` of `s` form a pair that may be counted.
pub open spec fn pair_at(s: Seq<usize>, boundary: Seq<bool>, i: int) -> bool {
    0 <= i && i + 1 < s.len() && mergeable(boundary, s[i]) && mergeable(boundary, s[i + 1])
}

/// Occurrences of the pair `(a, b)` that start before position `n`.
pub open spec fn count_upto(s: Seq<usize>, boundary: Seq<bool>, a: usize, b: usize, n: int) -> nat
    decreases n,
{
    if n <= 0 {
        0
    } else {
        count_upto(s, boundary, a, b, n - 1) + if pair_at(s, boundary, n - 1) && s[n - 1] == a
            && s[n] == b {
            1nat
        } else {
            0nat
        }
    }
}

/// Occurrences of the pair `(a, b)` in `s`, pairs touching a boundary left out.
pub open spec fn pair_count(s: Seq<usize>, boundary: Seq<bool>, a: usize, b: usize) -> nat {
    count_upto(s, boundary, a, b, s.len() as int)
}

pub open spec fn has_pair(s: Seq<usize>, boundary: Seq<bool>) -> bool {
    exists|i: int| pair_at(s, boundary, i)
}

/// `(a, b)` comes strictly before `(c, d)` in lexicographic order.
pub open spec fn pair_lt(a: usize, b: usize, c: usize, d: usize) -> bool {
    a < c || (a == c && b < d)
}

/// `(a, b)` is preferred over, or equal to, `(c, d)`: more frequent, or as frequent and not
/// lexicographically greater.
pub open spec fn preferred(s: Seq<usize>, boundary: Seq<bool>, a: usize, b: usize, c: usize, d: usize) -> bool {
    let n = pair_count(s, boundary, a, b);
    let m = pair_count(s, boundary, c, d);
    m < n || (m == n && !pair_lt(c, d, a, b))
}

/// `(a, b)` is the pair a merge step selects: it occurs, and it is preferred over every pair
/// that occurs. Ties in frequency go to the lexicographically lowest pair.
pub open spec fn is_best(s: Seq<usize>, boundary: Seq<bool>, a: usize, b: usize) -> bool {
    &&& pair_count(s, boundary, a, b) > 0
    &&& forall|c: usize, d: usize|
        #[trigger] pair_count(s, boundary, c, d) > 0 ==> preferred(s, boundary, a, b, c, d)
}

pub open spec fn best_pair(s: Seq<usize>, boundary: Seq<bool>) -> (usize, usize) {
    choose|p: (usize, usize)| is_best(s, boundary, p.0, p.1)
}

/// `s` with every occurrence of `(a, b)` replaced by `n`, scanning left to right without overlap.
pub open spec fn contract(s: Seq<usize>, a: usize, b: usize, n: usize) -> Seq<usize>
    decreases s.len(),
{
    if s.len() >= 2 && s[0] == a && s[1] == b {
        seq![n] + contract(s.subrange(2, s.len() as int), a, b, n)
    } else if s.len() >= 1 {
        seq![s[0]] + contract(s.drop_first(), a, b, n)
    } else {
        Seq::empty()
    }
}

/// The key under which the frequency of `(a, b)` is kept.
pub open spec fn pair_key(a: usize, b: usize) -> u128 {
    (a as int * 0x1_0000_0000_0000_0000 + b as int) as u128
}

/// The frequency map holds exactly the pairs that occur, each with its count, and no other key.
pub open spec fn is_freq_map(s: Seq<usize>, boundary: Seq<bool>, m: Map<u128, usize>) -> bool {
    &&& forall|a: usize, b: usize|
        #![trigger pair_key(a, b)]
        (m.contains_key(pair_key(a, b)) <==> pair_count(s, boundary, a, b) > 0) && (
        m.contains_key(pair_key(a, b)) ==> m[pair_key(a, b)] == pair_count(s, boundary, a, b))
    &&& forall|k: u128| #[trigger] m.contains_key(k) ==> exists|a: usize, b: usize| k == pair_key(a, b)
}

proof fn lemma_pair_key_injective(a: usize, b: usize, c: usize, d: usize)
    ensures
        pair_key(a, b) == pair_key(c, d) ==> a == c && b == d,
{
}

proof fn lemma_count_bound(s: Seq<usize>, boundary: Seq<bool>, a: usize, b: usize, n: int)
    ensures
        count_upto(s, boundary, a, b, n) <= if n < 0 { 0 } else { n },
    decreases n,
{
    if n > 0 {
        lemma_count_bound(s, boundary, a, b, n - 1);
    }
}

pub proof fn lemma_count_witness(s: Seq<usize>, boundary: Seq<bool>, a: usize, b: usize, n: int)
    requires
        count_upto(s, boundary, a, b, n) > 0,
    ensures
        exists|i: int| 0 <= i < n && pair_at(s, boundary, i) && s[i] == a && s[i + 1] == b,
    decreases n,
{
    if count_upto(s, boundary, a, b, n - 1) > 0 {
        lemma_count_witness(s, boundary, a, b, n - 1);
    }
}

proof fn lemma_count_positive(s: Seq<usize>, boundary: Seq<bool>, i: int, n: int)
    requires
        0 <= i < n,
        pair_at(s, boundary, i),
    ensures
        count_upto(s, boundary, s[i], s[i + 1], n) > 0,
    decreases n,
{
    if i < n - 1 {
        lemma_count_positive(s, boundary, i, n - 1);
    }
}

/// Two pairs that are both best are the same pair.
pub proof fn lemma_best_unique(s: Seq<usize>, boundary: Seq<bool>, a: usize, b: usize, c: usize, d: usize)
    requires
        is_best(s, boundary, a, b),
        is_best(s, boundary, c, d),
    ensures
        a == c && b == d,
{
    assert(preferred(s, boundary, a, b, c, d));
    assert(preferred(s, boundary, c, d, a, b));
}

spec fn occurs_at(s: Seq<usize>, a: usize, b: usize, i: int) -> bool {
    0 <= i && i + 1 < s.len() && s[i] == a && s[i + 1] == b
}

proof fn lemma_contract_len(s: Seq<usize>, a: usize, b: usize, n: usize)
    ensures
        contract(s, a, b, n).len() <= s.len(),
        (exists|i: int| #[trigger] occurs_at(s, a, b, i)) ==> contract(s, a, b, n).len() < s.len(),
    decreases s.len(),
{
    if s.len() >= 2 && s[0] == a && s[1] == b {
        lemma_contract_len(s.subrange(2, s.len() as int), a, b, n);
    } else if s.len() >= 1 {
        let t = s.drop_first();
        lemma_contract_len(t, a, b, n);
        if exists|i: int| #[trigger] occurs_at(s, a, b, i) {
            let i = choose|i: int| #[trigger] occurs_at(s, a, b, i);
            assert(i >= 1);
            assert(occurs_at(t, a, b, i - 1));
        }
    }
}

/// Each accepted merge step shortens the token stream: contracting a pair that occurs leaves
/// fewer tokens than before.
pub proof fn lemma_merge_shrinks(s: Seq<usize>, boundary: Seq<bool>, a: usize, b: usize, n: usize)
    requires
        pair_count(s, boundary, a, b) > 0,
    ensures
        contract(s, a, b, n).len() < s.len(),
{
    lemma_count_witness(s, boundary, a, b, s.len() as int);
    let i = choose|i: int| 0 <= i < s.len() && pair_at(s, boundary, i) && s[i] == a && s[i + 1] == b;
    assert(occurs_at(s, a, b, i));
    lemma_contract_len(s, a, b, n);
}

/// Whether `id` may take part in a pair.
pub fn is_mergeable(boundary: &Vec<bool>, id: usize) -> (r: bool)
    ensures
        r == mergeable(boundary@, id),
{
    id >= boundary.len() || !boundary[id]
}

fn pair_key_of(a: usize, b: usize) -> (r: u128)
    ensures
        r == pair_key(a, b),
{
    (a as u128) * 0x1_0000_0000_0000_0000u128 + (b as u128)
}

/// Counts every adjacent pair of ids in `input`, leaving out the pairs where either id is a
/// boundary.
pub fn get_pair_freq(input: &Vec<usize>, boundary: &Vec<bool>) -> (r: HashMap<u128, usize>)
    ensures
        is_freq_map(input@, boundary@, r@),
{
    let mut counter: HashMap<u128, usize> = HashMap::new();
    let n = input.len();
    let mut i: usize = 0;
    while i + 1 < n
        invariant
            n == input@.len(),
            i <= n,
            i + 1 <= n || n == 0,
            forall|a: usize, b: usize|
                #![trigger pair_key(a, b)]
                (counter@.contains_key(pair_key(a, b)) <==> count_upto(
                    input@,
                    boundary@,
                    a,
                    b,
                    i as int,
                ) > 0) && (counter@.contains_key(pair_key(a, b)) ==> counter@[pair_key(a, b)]
                    == count_upto(input@, boundary@, a, b, i as int)),
            forall|k: u128|
                #[trigger] counter@.contains_key(k) ==> exists|a: usize, b: usize| k == pair_key(a, b),
        decreases n - i,
    {
        let x = input[i];
        let y = input[i + 1];
        if is_mergeable(boundary, x) && is_mergeable(boundary, y) {
            let key = pair_key_of(x, y);
            proof {
                lemma_count_bound(input@, boundary@, x, y, i as int);
            }
            let next: usize = match counter.get(&key) {
                Some(c) => *c + 1,
                None => 1,
            };
            counter.insert(key, next);
        }
        proof {
            assert forall|a: usize, b: usize|
                #![trigger pair_key(a, b)]
                (counter@.contains_key(pair_key(a, b)) <==> count_upto(
                    input@,
                    boundary@,
                    a,
                    b,
                    i + 1,
                ) > 0) && (counter@.contains_key(pair_key(a, b)) ==> counter@[pair_key(a, b)]
                    == count_upto(input@, boundary@, a, b, i + 1)) by {
                lemma_pair_key_injective(a, b, x, y);
            }
        }
        i = i + 1;
    }
    proof {
        assert forall|a: usize, b: usize|
            #![trigger pair_key(a, b)]
            count_upto(input@, boundary@, a, b, n as int) == count_upto(
                input@,
                boundary@,
                a,
                b,
                i as int,
            ) by {
            if n > 0 {
                assert(!pair_at(input@, boundary@, n - 1));
            }
        }
    }
    counter
}

/// Some pair is selectable for a merge step.
pub open spec fn can_merge(s: Seq<usize>, boundary: Seq<bool>) -> bool {
    exists|p: (usize, usize)| is_best(s, boundary, p.0, p.1)
}

/// Selects the pair a merge step contracts: the most frequent one, ties going to the
/// lexicographically lowest `(left, right)`. Returns it with its count, or `None` when no pair
/// occurs.
pub fn most_frequent_pair(input: &Vec<usize>, boundary: &Vec<bool>, freq: &HashMap<u128, usize>) -> (r: Option<(usize, usize, usize)>)
    requires
        is_freq_map(input@, boundary@, freq@),
    ensures
        r is None <==> !has_pair(input@, boundary@),
        r is None <==> !can_merge(input@, boundary@),
        r matches Some((a, b, c)) ==> {
            &&& is_best(input@, boundary@, a, b)
            &&& best_pair(input@, boundary@) == (a, b)
            &&& c == pair_count(input@, boundary@, a, b)
        },
{
    let ghost s = input@;
    let ghost f = boundary@;
    let n = input.len();
    let mut best: Option<(usize, usize, usize)> = None;
    let mut i: usize = 0;
    while i + 1 < n
        invariant
            s == input@,
            f == boundary@,
            is_freq_map(s, f, freq@),
            n == s.len(),
            i <= n,
            i + 1 <= n || n == 0,
            best is None <==> (forall|j: int| 0 <= j < i ==> !#[trigger] pair_at(s, f, j)),
            best matches Some((a, b, c)) ==> {
                &&& c == pair_count(s, f, a, b)
                &&& c > 0
                &&& forall|j: int|
                    0 <= j < i && #[trigger] pair_at(s, f, j) ==> preferred(s, f, a, b, s[j], s[j + 1])
            },
        decreases n - i,
    {
        let x = input[i];
        let y = input[i + 1];
        if is_mergeable(boundary, x) && is_mergeable(boundary, y) {
            proof {
                lemma_count_positive(s, f, i as int, n as int);
            }
            let key = pair_key_of(x, y);
            let c: usize = match freq.get(&key) {
                Some(c) => *c,
                None => 0,
            };
            let take = match best {
                None => true,
                Some((a, b, bc)) => c > bc || (c == bc && (x < a || (x == a && y < b))),
            };
            if take {
                best = Some((x, y, c));
            }
            proof {
                assert(pair_at(s, f, i as int));
            }
        } else {
            proof {
                assert(!pair_at(s, f, i as int));
            }
        }
        i = i + 1;
    }
    match best {
        None => {
            proof {
                if has_pair(s, f) {
                    let j = choose|j: int| pair_at(s, f, j);
                    assert(pair_at(s, f, j));
                }
                if can_merge(s, f) {
                    let p = choose|p: (usize, usize)| is_best(s, f, p.0, p.1);
                    lemma_count_witness(s, f, p.0, p.1, n as int);
                    let j = choose|j: int| 0 <= j < n && pair_at(s, f, j) && s[j] == p.0 && s[j + 1] == p.1;
                    assert(pair_at(s, f, j));
                }
            }
            None
        },
        Some((a, b, c)) => {
            proof {
                assert forall|x: usize, y: usize|
                    #[trigger] pair_count(s, f, x, y) > 0 implies preferred(s, f, a, b, x, y) by {
                    lemma_count_witness(s, f, x, y, n as int);
                    let j = choose|j: int| 0 <= j < n && pair_at(s, f, j) && s[j] == x && s[j + 1] == y;
                    assert(pair_at(s, f, j));
                }
                let w = (a, b);
                assert(is_best(s, f, w.0, w.1));
                let p = best_pair(s, f);
                lemma_best_unique(s, f, a, b, p.0, p.1);
                let j = choose|j: int| 0 <= j < i && pair_at(s, f, j);
                assert(pair_at(s, f, j));
            }
            Some((a, b, c))
        },
    }
}

/// Rewrites `input`, replacing each occurrence of `(a, b)` found left to right by `n`.
pub fn contract_pair(input: &Vec<usize>, a: usize, b: usize, n: usize) -> (r: Vec<usize>)
    ensures
        r@ == contract(input@, a, b, n),
{
    let ghost s = input@;
    let len = input.len();
    let mut out: Vec<usize> = Vec::new();
    let mut at: usize = 0;
    proof {
        assert(s.subrange(0, len as int) =~= s);
        assert(out@ + contract(s, a, b, n) =~= contract(s, a, b, n));
    }
    while at < len
        invariant
            s == input@,
            len == s.len(),
            at <= len,
            out@ + contract(s.subrange(at as int, len as int), a, b, n) == contract(s, a, b, n),
        decreases len - at,
    {
        let ghost rest = s.subrange(at as int, len as int);
        let here = input[at];
        if at + 1 < len && here == a && input[at + 1] == b {
            out.push(n);
            proof {
                assert(rest.subrange(2, rest.len() as int) =~= s.subrange(at + 2, len as int));
                assert(out@ =~= out@.drop_last() + seq![n]);
            }
            at = at + 2;
        } else {
            out.push(here);
            proof {
                assert(rest.drop_first() =~= s.subrange(at + 1, len as int));
                assert(out@ =~= out@.drop_last() + seq![here]);
            }
            at = at + 1;
        }
    }
    proof {
        assert(s.subrange(at as int, len as int) =~= Seq::<usize>::empty());
        assert(out@ + Seq::<usize>::empty() =~= out@);
    }
    out
}

} // verus!
