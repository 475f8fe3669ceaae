//! The Count and Select steps of training: how often each adjacent pair
//! occurs, and which pair is merged next.

use crate::token::{tokens_of, Token};
use std::collections::HashMap;
use vstd::hash_map::StringHashMap;
use vstd::prelude::*;

verus! {

/// Whether the adjacent pair (`first`, `second`) stands at position `i` of
/// `s`, that is, in `s[i]` and `s[i + 1]`.
pub open spec fn pair_at(s: Seq<Token>, i: int, first: Token, second: Token) -> bool {
    0 <= i && i + 1 < s.len() && s[i] == first && s[i + 1] == second
}

/// The number of positions below `n` at which the pair stands.
pub open spec fn pair_count_below(s: Seq<Token>, first: Token, second: Token, n: int) -> nat
    decreases n,
{
    if n <= 0 {
        0
    } else {
        pair_count_below(s, first, second, n - 1) + if pair_at(s, n - 1, first, second) {
            1nat
        } else {
            0nat
        }
    }
}

/// How often the pair occurs in `s`. Occurrences that overlap all count:
/// the pair (a, a) occurs twice in a, a, a.
pub open spec fn pair_count(s: Seq<Token>, first: Token, second: Token) -> nat {
    pair_count_below(s, first, second, s.len() as int)
}

/// How often the pair that stands at position `i` occurs in `s`.
pub open spec fn count_at(s: Seq<Token>, i: int) -> nat {
    pair_count(s, s[i], s[i + 1])
}

/// Whether `p` is the position that Select picks: the pair at `p` occurs at
/// least as often as every other pair, and strictly more often than every
/// pair that stands further left. Among the pairs of maximal count this is
/// the one whose first occurrence comes first, at that occurrence.
pub open spec fn is_best_position(s: Seq<Token>, p: int) -> bool {
    &&& 0 <= p && p + 1 < s.len()
    &&& forall|j: int| 0 <= j && j + 1 < s.len() ==> #[trigger] count_at(s, j) <= count_at(s, p)
    &&& forall|j: int| 0 <= j < p ==> #[trigger] count_at(s, j) < count_at(s, p)
}

/// The position that Select picks in a corpus of at least two tokens.
pub open spec fn best_position(s: Seq<Token>) -> int {
    choose|p: int| is_best_position(s, p)
}

/// The position that a scan of the first `n` positions holds as the best.
spec fn leftmost_max(s: Seq<Token>, n: int) -> int
    decreases n,
{
    if n <= 1 {
        0
    } else {
        let q = leftmost_max(s, n - 1);
        if count_at(s, n - 1) > count_at(s, q) {
            n - 1
        } else {
            q
        }
    }
}

proof fn lemma_leftmost_max(s: Seq<Token>, n: int)
    requires
        1 <= n,
    ensures
        0 <= leftmost_max(s, n) < n,
        forall|j: int| 0 <= j < n ==> #[trigger] count_at(s, j) <= count_at(s, leftmost_max(s, n)),
        forall|j: int|
            0 <= j < leftmost_max(s, n) ==> #[trigger] count_at(s, j) < count_at(
                s,
                leftmost_max(s, n),
            ),
    decreases n,
{
    if n > 1 {
        lemma_leftmost_max(s, n - 1);
    }
}

/// A corpus of at least two tokens has exactly one best position.
pub proof fn lemma_best_position(s: Seq<Token>)
    requires
        s.len() >= 2,
    ensures
        is_best_position(s, best_position(s)),
        forall|p: int| is_best_position(s, p) ==> p == best_position(s),
{
    lemma_leftmost_max(s, s.len() - 1);
    assert(is_best_position(s, leftmost_max(s, s.len() - 1)));
    let b = best_position(s);
    assert forall|p: int| is_best_position(s, p) implies p == b by {
        if p < b {
            assert(count_at(s, p) < count_at(s, b));
            assert(count_at(s, b) <= count_at(s, p));
        } else if b < p {
            assert(count_at(s, b) < count_at(s, p));
            assert(count_at(s, p) <= count_at(s, b));
        }
    }
}

/// The key under which the pair of the token numbers `a` and `b` is counted.
spec fn key_of(a: usize, b: usize) -> u128 {
    (a as int * 0x1_0000_0000_0000_0000 + b as int) as u128
}

/// The keys of the adjacent pairs of a corpus with the token numbers `ids`.
spec fn keys_of(ids: Seq<usize>) -> Seq<u128> {
    Seq::new((ids.len() - 1) as nat, |j: int| key_of(ids[j], ids[j + 1]))
}

/// How often `k` stands among the first `n` keys.
spec fn occurrences(keys: Seq<u128>, k: u128, n: int) -> nat
    decreases n,
{
    if n <= 0 {
        0
    } else {
        occurrences(keys, k, n - 1) + if keys[n - 1] == k {
            1nat
        } else {
            0nat
        }
    }
}

/// Token numbers stand for the tokens: two positions hold the same number
/// exactly where they hold the same token.
spec fn numbers_tokens(ids: Seq<usize>, s: Seq<Token>) -> bool {
    &&& ids.len() == s.len()
    &&& forall|i: int, j: int|
        0 <= i < ids.len() && 0 <= j < ids.len() ==> ((ids[i] == ids[j]) <==> (s[i] == s[j]))
}

proof fn lemma_occurrences_bounds(keys: Seq<u128>, k: u128, n: int, at: int)
    requires
        0 <= n,
    ensures
        occurrences(keys, k, n) <= n,
        0 <= at < n && keys[at] == k ==> occurrences(keys, k, n) > 0,
    decreases n,
{
    if n > 0 {
        lemma_occurrences_bounds(keys, k, n - 1, at);
    }
}

proof fn lemma_key_of_injective(a: usize, b: usize, c: usize, d: usize)
    ensures
        key_of(a, b) == key_of(c, d) <==> a == c && b == d,
{
    assert(usize::MAX <= 0xffff_ffff_ffff_ffff);
}

/// Counting keys counts pairs.
proof fn lemma_occurrences_count_pairs(ids: Seq<usize>, s: Seq<Token>, i: int, n: int)
    requires
        numbers_tokens(ids, s),
        0 <= i && i + 1 < s.len(),
        0 <= n && n + 1 <= s.len(),
    ensures
        occurrences(keys_of(ids), keys_of(ids)[i], n) == pair_count_below(s, s[i], s[i + 1], n),
    decreases n,
{
    if n > 0 {
        lemma_occurrences_count_pairs(ids, s, i, n - 1);
        lemma_key_of_injective(ids[n - 1], ids[n], ids[i], ids[i + 1]);
    }
}

/// Numbers the tokens of the corpus in the order in which they first occur.
fn number_tokens(corpus: &Vec<String>) -> (ids: Vec<usize>)
    ensures
        numbers_tokens(ids@, tokens_of(corpus@)),
{
    let ghost s = tokens_of(corpus@);
    let mut table: StringHashMap<usize> = StringHashMap::new();
    let mut ids: Vec<usize> = Vec::with_capacity(corpus.len());
    let mut next: usize = 0;
    let mut i: usize = 0;
    while i < corpus.len()
        invariant
            i <= corpus.len(),
            s == tokens_of(corpus@),
            ids@.len() == i,
            next <= i,
            forall|j: int| 0 <= j < i ==> #[trigger] ids@[j] < next,
            forall|j: int|
                0 <= j < i ==> table@.contains_key(#[trigger] s[j]) && table@[s[j]] == ids@[j],
            forall|t: Token|
                #[trigger] table@.contains_key(t) ==> exists|j: int| 0 <= j < i && #[trigger] s[j] == t,
            forall|j: int, k: int|
                0 <= j < i && 0 <= k < i ==> ((ids@[j] == ids@[k]) <==> (s[j] == s[k])),
        decreases corpus.len() - i,
    {
        let token: &String = &corpus[i];
        assert(token@ == s[i as int]);
        let known: Option<&usize> = table.get(token.as_str());
        let id: usize = match known {
            Some(id) => {
                proof {
                    let j0 = choose|j: int| 0 <= j < i && #[trigger] s[j] == token@;
                    assert(table@[s[j0]] == ids@[j0]);
                }
                *id
            },
            None => {
                table.insert(token.clone(), next);
                let id: usize = next;
                next += 1;
                id
            },
        };
        ids.push(id);
        i += 1;
    }
    ids
}

/// The key of one pair of token numbers.
fn pair_key(a: usize, b: usize) -> (k: u128)
    ensures
        k == key_of(a, b),
{
    assert(usize::MAX <= 0xffff_ffff_ffff_ffff);
    (a as u128) * 0x1_0000_0000_0000_0000u128 + (b as u128)
}

/// Counts every adjacent pair of token numbers.
fn count_pairs(ids: &Vec<usize>) -> (counts: HashMap<u128, usize>)
    requires
        ids@.len() >= 1,
    ensures
        forall|k: u128|
            #[trigger] counts@.contains_key(k) <==> occurrences(keys_of(ids@), k, ids@.len() - 1)
                > 0,
        forall|k: u128|
            #[trigger] counts@.contains_key(k) ==> counts@[k] == occurrences(
                keys_of(ids@),
                k,
                ids@.len() - 1,
            ),
{
    let ghost keys = keys_of(ids@);
    let mut counts: HashMap<u128, usize> = HashMap::new();
    let mut j: usize = 0;
    while j + 1 < ids.len()
        invariant
            j + 1 <= ids.len(),
            keys == keys_of(ids@),
            forall|k: u128| #[trigger] counts@.contains_key(k) <==> occurrences(keys, k, j as int) > 0,
            forall|k: u128|
                #[trigger] counts@.contains_key(k) ==> counts@[k] == occurrences(keys, k, j as int),
        decreases ids.len() - j,
    {
        let key: u128 = pair_key(ids[j], ids[j + 1]);
        assert(key == keys[j as int]);
        let seen: usize = match counts.get(&key) {
            Some(c) => *c,
            None => 0,
        };
        proof {
            lemma_occurrences_bounds(keys, key, j as int, 0);
            assert(seen == occurrences(keys, key, j as int));
        }
        counts.insert(key, seen + 1);
        j += 1;
    }
    counts
}

/// The Select step: the position of the pair that is merged next, or `None`
/// where the corpus holds no pair.
pub fn select_pair(corpus: &Vec<String>) -> (best: Option<usize>)
    ensures
        match best {
            Some(p) => corpus@.len() >= 2 && p + 1 < corpus@.len() && p == best_position(
                tokens_of(corpus@),
            ),
            None => corpus@.len() < 2,
        },
{
    let n: usize = corpus.len();
    if n < 2 {
        return None;
    }
    let ghost s = tokens_of(corpus@);
    let ids = number_tokens(corpus);
    let counts = count_pairs(&ids);
    let ghost keys = keys_of(ids@);
    proof {
        assert forall|i: int| 0 <= i && i + 1 < n implies counts@.contains_key(#[trigger] keys[i])
            && counts@[keys[i]] == count_at(s, i) by {
            lemma_occurrences_bounds(keys, keys[i], n - 1, i);
            lemma_occurrences_count_pairs(ids@, s, i, n - 1);
            assert(!pair_at(s, n - 1, s[i], s[i + 1]));
            assert(counts@.contains_key(keys[i]));
        }
    }
    let mut best: usize = 0;
    let mut best_count: usize = 0;
    let mut j: usize = 0;
    while j + 1 < n
        invariant
            n == ids@.len(),
            n == s.len(),
            n >= 2,
            j + 1 <= n,
            keys == keys_of(ids@),
            forall|i: int|
                0 <= i && i + 1 < n ==> counts@.contains_key(#[trigger] keys[i]) && counts@[keys[i]]
                    == count_at(s, i),
            j == 0 ==> best == 0 && best_count == 0,
            j > 0 ==> best < j && best_count == count_at(s, best as int),
            forall|i: int| 0 <= i < j ==> #[trigger] count_at(s, i) <= best_count,
            forall|i: int| 0 <= i < best ==> #[trigger] count_at(s, i) < best_count,
        decreases n - j,
    {
        let key: u128 = pair_key(ids[j], ids[j + 1]);
        assert(key == keys[j as int]);
        let count: usize = match counts.get(&key) {
            Some(c) => *c,
            None => 0,
        };
        assert(count == count_at(s, j as int));
        if j == 0 || count > best_count {
            best = j;
            best_count = count;
        }
        j += 1;
    }
    proof {
        assert(is_best_position(s, best as int));
        lemma_best_position(s);
    }
    Some(best)
}

} // verus!
