//! The Rewrite step of training: on one chunk, and over a corpus cut into
//! chunks that are rewritten in parallel and joined from left to right.

use crate::token::{lemma_tokens_of_push, merged_token, tokens_nonempty, tokens_of, Token};
use vstd::seq_lib::lemma_flatten_concat;
use rayon::iter::ParallelIterator;
use rayon::slice::ParallelSlice;
use vstd::prelude::*;

verus! {

/// The number of tokens in one chunk of the parallel rewrite.
pub const CHUNK_SIZE: usize = 50_000;

/// The corpus `s` after every occurrence of the adjacent pair
/// (`first`, `second`) has been replaced by the merged token, scanning from
/// the left and resuming behind each replacement.
pub open spec fn rewrite(s: Seq<Token>, first: Token, second: Token) -> Seq<Token>
    decreases s.len(),
{
    if s.len() == 0 {
        Seq::empty()
    } else if s.len() >= 2 && s[0] == first && s[1] == second {
        seq![merged_token(first, second)] + rewrite(s.skip(2), first, second)
    } else {
        seq![s[0]] + rewrite(s.skip(1), first, second)
    }
}

/// Two rewritten neighbours put together. Where the left one ends in `first`
/// and the right one begins with `second`, the two boundary tokens collapse
/// into the merged token.
pub open spec fn join(left: Seq<Token>, right: Seq<Token>, first: Token, second: Token) -> Seq<
    Token,
> {
    if left.len() > 0 && right.len() > 0 && left.last() == first && right.first() == second {
        left.drop_last().push(merged_token(first, second)) + right.drop_first()
    } else {
        left + right
    }
}

/// The number of chunks of at most `size` tokens that `len` tokens fall into.
pub open spec fn chunk_count(len: nat, size: nat) -> nat {
    if size == 0 {
        0
    } else {
        ((len + size - 1) / (size as int)) as nat
    }
}

/// Where the `k`-th chunk begins in a corpus of `len` tokens: `k * size`, or
/// `len` for a chunk behind the last one.
pub open spec fn chunk_start(len: nat, size: nat, k: int) -> int {
    if k * size < len {
        k * size
    } else {
        len as int
    }
}

/// The `k`-th chunk of `s`: the tokens from `k * size` up to, but not
/// including, `(k + 1) * size`, as far as `s` reaches.
pub open spec fn chunk(s: Seq<Token>, size: nat, k: int) -> Seq<Token> {
    s.subrange(chunk_start(s.len(), size, k), chunk_start(s.len(), size, k + 1))
}

/// The first `n` chunks of `s`, each rewritten on its own and then joined
/// from left to right.
pub open spec fn fold_chunks(s: Seq<Token>, size: nat, n: nat, first: Token, second: Token) -> Seq<
    Token,
>
    decreases n,
{
    if n == 0 {
        Seq::empty()
    } else {
        join(
            fold_chunks(s, size, (n - 1) as nat, first, second),
            rewrite(chunk(s, size, n - 1), first, second),
            first,
            second,
        )
    }
}

/// The chunked rewrite: `s` is cut into chunks of `size` tokens, every chunk
/// is rewritten on its own, and the results are joined from left to right.
pub open spec fn rewrite_chunked(s: Seq<Token>, size: nat, first: Token, second: Token) -> Seq<
    Token,
> {
    fold_chunks(s, size, chunk_count(s.len(), size), first, second)
}

/// Whether the join of `left` with the rewrite of the chunk `part` misses a
/// merge that a single thread makes. That is so where the pair is one token
/// twice, `left` ends in it and `part` begins with two of it: a single
/// thread merges the end of `left` with the head of `part`, while the chunk,
/// rewritten on its own, has merged its first two tokens with each other.
pub open spec fn join_misses_merge(
    left: Seq<Token>,
    part: Seq<Token>,
    first: Token,
    second: Token,
) -> bool {
    &&& first == second
    &&& left.len() > 0 && left.last() == first
    &&& part.len() >= 2 && part[0] == first && part[1] == first
}

/// Whether the chunked rewrite of `s` misses a merge at one of its chunk
/// boundaries.
pub open spec fn chunking_misses_merge(
    s: Seq<Token>,
    size: nat,
    first: Token,
    second: Token,
) -> bool {
    exists|k: nat|
        k < chunk_count(s.len(), size) && join_misses_merge(
            #[trigger] fold_chunks(s, size, k, first, second),
            chunk(s, size, k as int),
            first,
            second,
        )
}

/// A rewrite never lengthens a corpus, and leaves a corpus that holds a token
/// with at least one.
pub proof fn lemma_rewrite_len(s: Seq<Token>, first: Token, second: Token)
    ensures
        rewrite(s, first, second).len() <= s.len(),
        s.len() > 0 ==> rewrite(s, first, second).len() > 0,
    decreases s.len(),
{
    if s.len() == 0 {
    } else if s.len() >= 2 && s[0] == first && s[1] == second {
        lemma_rewrite_len(s.skip(2), first, second);
    } else {
        lemma_rewrite_len(s.skip(1), first, second);
    }
}

/// A rewrite that keeps the length has replaced nothing.
pub proof fn lemma_rewrite_same_len(s: Seq<Token>, first: Token, second: Token)
    requires
        rewrite(s, first, second).len() == s.len(),
    ensures
        rewrite(s, first, second) == s,
    decreases s.len(),
{
    if s.len() == 0 {
        assert(rewrite(s, first, second) =~= s);
    } else if s.len() >= 2 && s[0] == first && s[1] == second {
        lemma_rewrite_len(s.skip(2), first, second);
    } else {
        lemma_rewrite_len(s.skip(1), first, second);
        lemma_rewrite_same_len(s.skip(1), first, second);
        assert(seq![s[0]] + s.skip(1) =~= s);
    }
}

/// A corpus in which the pair occurs gets shorter.
pub proof fn lemma_rewrite_shrinks(s: Seq<Token>, first: Token, second: Token, at: int)
    requires
        0 <= at,
        at + 1 < s.len(),
        s[at] == first,
        s[at + 1] == second,
    ensures
        rewrite(s, first, second).len() < s.len(),
    decreases s.len(),
{
    if s[0] == first && s[1] == second {
        lemma_rewrite_len(s.skip(2), first, second);
    } else {
        lemma_rewrite_shrinks(s.skip(1), first, second, at - 1);
    }
}

proof fn lemma_join_behind_head(
    head: Token,
    left: Seq<Token>,
    right: Seq<Token>,
    first: Token,
    second: Token,
)
    requires
        left.len() > 0 || head != first,
    ensures
        join(seq![head] + left, right, first, second) == seq![head] + join(
            left,
            right,
            first,
            second,
        ),
{
    let whole = seq![head] + left;
    if left.len() > 0 {
        assert(whole.last() == left.last());
        assert(whole.drop_last() =~= seq![head] + left.drop_last());
        assert(join(whole, right, first, second) =~= seq![head] + join(left, right, first, second));
    } else {
        assert(whole.last() == head);
        assert(join(whole, right, first, second) =~= seq![head] + join(left, right, first, second));
    }
}

/// The rewrite of two corpora put end to end is the join of their rewrites,
/// unless the join misses a merge. The tokens of the pair are not empty.
pub proof fn lemma_rewrite_concat(x: Seq<Token>, y: Seq<Token>, first: Token, second: Token)
    requires
        first.len() > 0,
        second.len() > 0,
        !join_misses_merge(rewrite(x, first, second), y, first, second),
    ensures
        rewrite(x + y, first, second) == join(
            rewrite(x, first, second),
            rewrite(y, first, second),
            first,
            second,
        ),
    decreases x.len(),
{
    let merged = merged_token(first, second);
    assert(merged.len() == first.len() + second.len());
    assert(merged != first && merged != second);
    let rx = rewrite(x, first, second);
    let ry = rewrite(y, first, second);
    let xy = x + y;
    if x.len() == 0 {
        assert(xy =~= y);
        assert(join(rx, ry, first, second) =~= ry);
    } else if x.len() == 1 {
        let t = x[0];
        assert(rewrite(x.skip(1), first, second) =~= Seq::<Token>::empty());
        assert(rx =~= seq![t]);
        assert(rx.last() == t);
        assert(xy[0] == t);
        if y.len() > 0 && t == first && y[0] == second {
            assert(xy[1] == y[0]);
            assert(xy.skip(2) =~= y.skip(1));
            assert(ry == seq![y[0]] + rewrite(y.skip(1), first, second));
            assert(ry.first() == second);
            assert(ry.drop_first() =~= rewrite(y.skip(1), first, second));
            assert(rx.drop_last().push(merged) =~= seq![merged]);
            assert(join(rx, ry, first, second) =~= rewrite(xy, first, second));
        } else {
            assert(xy.skip(1) =~= y);
            if y.len() > 0 {
                assert(xy[1] == y[0]);
                assert(ry.first() == merged || ry.first() == y[0]);
            }
            assert(rewrite(xy, first, second) == seq![t] + ry);
            assert(join(rx, ry, first, second) =~= seq![t] + ry);
        }
    } else {
        assert(xy[0] == x[0] && xy[1] == x[1]);
        if x[0] == first && x[1] == second {
            let tail = rewrite(x.skip(2), first, second);
            assert(xy.skip(2) =~= x.skip(2) + y);
            if tail.len() > 0 {
                assert(rx.last() == tail.last());
            }
            lemma_rewrite_concat(x.skip(2), y, first, second);
            lemma_join_behind_head(merged, tail, ry, first, second);
        } else {
            let tail = rewrite(x.skip(1), first, second);
            assert(xy.skip(1) =~= x.skip(1) + y);
            lemma_rewrite_len(x.skip(1), first, second);
            assert(rx.last() == tail.last());
            lemma_rewrite_concat(x.skip(1), y, first, second);
            lemma_join_behind_head(x[0], tail, ry, first, second);
        }
    }
}

/// Where the rewrite of `x` ends in `first` and `y` begins with `second`, a
/// single thread merges the two across the seam.
proof fn lemma_rewrite_merges_across(x: Seq<Token>, y: Seq<Token>, first: Token, second: Token)
    requires
        second.len() > 0,
        rewrite(x, first, second).len() > 0,
        rewrite(x, first, second).last() == first,
        y.len() > 0,
        y[0] == second,
    ensures
        rewrite(x + y, first, second) == rewrite(x, first, second).drop_last().push(
            merged_token(first, second),
        ) + rewrite(y.skip(1), first, second),
    decreases x.len(),
{
    let merged = merged_token(first, second);
    assert(merged.len() == first.len() + second.len());
    let rx = rewrite(x, first, second);
    let xy = x + y;
    if x.len() == 0 {
    } else if x.len() == 1 {
        assert(rewrite(x.skip(1), first, second) =~= Seq::<Token>::empty());
        assert(rx =~= seq![x[0]]);
        assert(rx.last() == x[0]);
        assert(xy[0] == x[0] && xy[1] == y[0]);
        assert(xy.skip(2) =~= y.skip(1));
        assert(rx.drop_last().push(merged) =~= seq![merged]);
    } else {
        assert(xy[0] == x[0] && xy[1] == x[1]);
        if x[0] == first && x[1] == second {
            let tail = rewrite(x.skip(2), first, second);
            assert(xy.skip(2) =~= x.skip(2) + y);
            if tail.len() == 0 {
                assert(rx.last() == merged);
            } else {
                assert(rx.last() == tail.last());
                lemma_rewrite_merges_across(x.skip(2), y, first, second);
                assert(rx.drop_last() =~= seq![merged] + tail.drop_last());
                assert(rewrite(xy, first, second) =~= rx.drop_last().push(merged) + rewrite(
                    y.skip(1),
                    first,
                    second,
                ));
            }
        } else {
            let tail = rewrite(x.skip(1), first, second);
            assert(xy.skip(1) =~= x.skip(1) + y);
            lemma_rewrite_len(x.skip(1), first, second);
            assert(rx.last() == tail.last());
            lemma_rewrite_merges_across(x.skip(1), y, first, second);
            assert(rx.drop_last() =~= seq![x[0]] + tail.drop_last());
            assert(rewrite(xy, first, second) =~= rx.drop_last().push(merged) + rewrite(
                y.skip(1),
                first,
                second,
            ));
        }
    }
}

proof fn lemma_chunk_start_step(len: nat, size: nat, k: nat)
    requires
        size > 0,
    ensures
        0 <= chunk_start(len, size, k as int) <= chunk_start(len, size, k as int + 1) <= len,
        chunk_start(len, size, k as int) < len ==> chunk_start(len, size, k as int) == k * size,
        chunk_start(len, size, 0) == 0,
{
    assert((k + 1) * size == k * size + size) by (nonlinear_arith);
    assert(k * size >= 0) by (nonlinear_arith)
        requires
            k >= 0,
            size > 0,
    ;
}

proof fn lemma_chunks_cover(len: nat, size: nat)
    requires
        size > 0,
    ensures
        chunk_start(len, size, chunk_count(len, size) as int) == len,
{
    let n = chunk_count(len, size);
    assert(n * size >= len) by (nonlinear_arith)
        requires
            size > 0,
            n == (len + size - 1) / (size as int),
    ;
}

/// As long as no join misses a merge, the first `n` chunks, rewritten and
/// joined, are the rewrite of the tokens that they cover.
proof fn lemma_fold_chunks_is_rewrite(
    s: Seq<Token>,
    size: nat,
    n: nat,
    first: Token,
    second: Token,
)
    requires
        size > 0,
        first.len() > 0,
        second.len() > 0,
        forall|j: nat|
            j < n ==> !join_misses_merge(
                #[trigger] fold_chunks(s, size, j, first, second),
                chunk(s, size, j as int),
                first,
                second,
            ),
    ensures
        fold_chunks(s, size, n, first, second) == rewrite(
            s.take(chunk_start(s.len(), size, n as int)),
            first,
            second,
        ),
    decreases n,
{
    if n == 0 {
        assert(s.take(0) =~= Seq::<Token>::empty());
    } else {
        let k = (n - 1) as nat;
        lemma_fold_chunks_is_rewrite(s, size, k, first, second);
        lemma_chunk_start_step(s.len(), size, k);
        let lo = chunk_start(s.len(), size, k as int);
        let hi = chunk_start(s.len(), size, n as int);
        assert(s.take(lo) + chunk(s, size, k as int) =~= s.take(hi));
        assert(!join_misses_merge(
            fold_chunks(s, size, k, first, second),
            chunk(s, size, k as int),
            first,
            second,
        ));
        lemma_rewrite_concat(s.take(lo), chunk(s, size, k as int), first, second);
    }
}

/// A join keeps what its left side holds, but for the last token.
proof fn lemma_fold_chunks_stable(
    s: Seq<Token>,
    size: nat,
    k: nat,
    n: nat,
    first: Token,
    second: Token,
    i: int,
)
    requires
        k <= n,
        0 <= i < fold_chunks(s, size, k, first, second).len() - 1,
    ensures
        i < fold_chunks(s, size, n, first, second).len() - 1,
        fold_chunks(s, size, n, first, second)[i] == fold_chunks(s, size, k, first, second)[i],
    decreases n - k,
{
    if k < n {
        lemma_fold_chunks_stable(s, size, k, (n - 1) as nat, first, second, i);
    }
}

/// The first boundary at which a join misses a merge.
proof fn lemma_first_missed_merge(
    s: Seq<Token>,
    size: nat,
    first: Token,
    second: Token,
    k: nat,
) -> (k0: nat)
    requires
        join_misses_merge(
            fold_chunks(s, size, k, first, second),
            chunk(s, size, k as int),
            first,
            second,
        ),
    ensures
        k0 <= k,
        join_misses_merge(
            fold_chunks(s, size, k0, first, second),
            chunk(s, size, k0 as int),
            first,
            second,
        ),
        forall|j: nat|
            j < k0 ==> !join_misses_merge(
                #[trigger] fold_chunks(s, size, j, first, second),
                chunk(s, size, j as int),
                first,
                second,
            ),
    decreases k,
{
    if exists|j: nat|
        j < k && join_misses_merge(
            #[trigger] fold_chunks(s, size, j, first, second),
            chunk(s, size, j as int),
            first,
            second,
        ) {
        let j = choose|j: nat|
            j < k && join_misses_merge(
                #[trigger] fold_chunks(s, size, j, first, second),
                chunk(s, size, j as int),
                first,
                second,
            );
        lemma_first_missed_merge(s, size, first, second, j)
    } else {
        k
    }
}

/// Where a join misses a merge, the chunked rewrite differs from the rewrite
/// on a single thread.
proof fn lemma_missed_merge_differs(
    s: Seq<Token>,
    size: nat,
    first: Token,
    second: Token,
    k: nat,
)
    requires
        size > 0,
        first.len() > 0,
        second.len() > 0,
        k < chunk_count(s.len(), size),
        join_misses_merge(
            fold_chunks(s, size, k, first, second),
            chunk(s, size, k as int),
            first,
            second,
        ),
    ensures
        rewrite_chunked(s, size, first, second) != rewrite(s, first, second),
{
    let merged = merged_token(first, second);
    assert(merged.len() == first.len() + second.len());
    let k0 = lemma_first_missed_merge(s, size, first, second, k);
    let n = chunk_count(s.len(), size);
    let left = fold_chunks(s, size, k0, first, second);
    let part = chunk(s, size, k0 as int);
    let at = left.len() - 1;
    lemma_fold_chunks_is_rewrite(s, size, k0, first, second);
    lemma_chunk_start_step(s.len(), size, k0);
    let lo = chunk_start(s.len(), size, k0 as int);
    // On a single thread the end of `left` is merged with the head of `part`.
    let rest = s.skip(lo);
    assert(rest[0] == part[0]);
    assert(s.take(lo) + rest =~= s);
    lemma_rewrite_merges_across(s.take(lo), rest, first, second);
    assert(rewrite(s, first, second)[at] == merged);
    // In the chunked rewrite the end of `left` stays as it is.
    let right = rewrite(part, first, second);
    assert(right.first() == merged);
    let next = fold_chunks(s, size, (k0 + 1) as nat, first, second);
    assert(next == left + right);
    assert(next[at] == first);
    lemma_fold_chunks_stable(s, size, (k0 + 1) as nat, n, first, second, at);
    assert(rewrite_chunked(s, size, first, second)[at] == first);
}

/// The chunked rewrite and the rewrite on a single thread give the same
/// corpus exactly where no join misses a merge, for every corpus and every
/// chunk size of at least one token. The tokens of the pair are not empty.
pub proof fn lemma_rewrite_chunked_is_rewrite_iff(
    s: Seq<Token>,
    size: nat,
    first: Token,
    second: Token,
)
    requires
        size > 0,
        first.len() > 0,
        second.len() > 0,
    ensures
        rewrite_chunked(s, size, first, second) == rewrite(s, first, second)
            <==> !chunking_misses_merge(s, size, first, second),
{
    let n = chunk_count(s.len(), size);
    if chunking_misses_merge(s, size, first, second) {
        let k = choose|k: nat|
            k < n && join_misses_merge(
                #[trigger] fold_chunks(s, size, k, first, second),
                chunk(s, size, k as int),
                first,
                second,
            );
        lemma_missed_merge_differs(s, size, first, second, k);
    } else {
        lemma_chunks_cover(s.len(), size);
        lemma_fold_chunks_is_rewrite(s, size, n, first, second);
        assert(s.take(s.len() as int) =~= s);
    }
}

/// The chunked rewrite and the rewrite on a single thread give the same
/// corpus, for every corpus and every chunk size of at least one token,
/// whenever the two tokens of the pair differ. The tokens of the pair are
/// not empty.
pub proof fn lemma_rewrite_chunked_is_rewrite(
    s: Seq<Token>,
    size: nat,
    first: Token,
    second: Token,
)
    requires
        size > 0,
        first != second,
        first.len() > 0,
        second.len() > 0,
    ensures
        rewrite_chunked(s, size, first, second) == rewrite(s, first, second),
{
    lemma_rewrite_chunked_is_rewrite_iff(s, size, first, second);
}

/// A corpus that fits into one chunk is rewritten as on a single thread,
/// whatever the pair.
pub proof fn lemma_rewrite_single_chunk(s: Seq<Token>, size: nat, first: Token, second: Token)
    requires
        size > 0,
        s.len() <= size,
    ensures
        rewrite_chunked(s, size, first, second) == rewrite(s, first, second),
{
    let n = chunk_count(s.len(), size);
    if s.len() == 0 {
        assert(n == 0) by (nonlinear_arith)
            requires
                size > 0,
                s.len() == 0,
                n == (s.len() + size - 1) / (size as int),
        ;
    } else {
        assert(n == 1) by (nonlinear_arith)
            requires
                size > 0,
                0 < s.len() <= size,
                n == (s.len() + size - 1) / (size as int),
        ;
        lemma_chunk_start_step(s.len(), size, 0);
        assert(chunk(s, size, 0) =~= s);
        assert(fold_chunks(s, size, 0, first, second) =~= Seq::<Token>::empty());
        assert(fold_chunks(s, size, 1, first, second) =~= rewrite(s, first, second));
    }
}

/// The first `n` chunks, rewritten and joined, are no longer than the tokens
/// that they cover, and where they are as long, nothing was replaced.
proof fn lemma_fold_chunks_len(s: Seq<Token>, size: nat, n: nat, first: Token, second: Token)
    requires
        size > 0,
    ensures
        fold_chunks(s, size, n, first, second).len() <= chunk_start(s.len(), size, n as int),
        fold_chunks(s, size, n, first, second).len() == chunk_start(s.len(), size, n as int)
            ==> fold_chunks(s, size, n, first, second) == s.take(
            chunk_start(s.len(), size, n as int),
        ),
    decreases n,
{
    if n == 0 {
        assert(s.take(0) =~= Seq::<Token>::empty());
    } else {
        let k = (n - 1) as nat;
        lemma_fold_chunks_len(s, size, k, first, second);
        lemma_chunk_start_step(s.len(), size, k);
        let lo = chunk_start(s.len(), size, k as int);
        let hi = chunk_start(s.len(), size, n as int);
        let left = fold_chunks(s, size, k, first, second);
        let part = chunk(s, size, k as int);
        let right = rewrite(part, first, second);
        lemma_rewrite_len(part, first, second);
        if join(left, right, first, second).len() == hi {
            lemma_rewrite_same_len(part, first, second);
            assert(s.take(lo) + part =~= s.take(hi));
        }
    }
}

/// Where the pair occurs among the tokens that the first `n` chunks cover,
/// the chunks, rewritten and joined, are shorter than those tokens.
proof fn lemma_fold_chunks_shrinks(
    s: Seq<Token>,
    size: nat,
    n: nat,
    first: Token,
    second: Token,
    at: int,
)
    requires
        size > 0,
        0 <= at,
        at + 1 < chunk_start(s.len(), size, n as int),
        s[at] == first,
        s[at + 1] == second,
    ensures
        fold_chunks(s, size, n, first, second).len() < chunk_start(s.len(), size, n as int),
    decreases n,
{
    if n > 0 {
        let k = (n - 1) as nat;
        lemma_fold_chunks_len(s, size, k, first, second);
        lemma_chunk_start_step(s.len(), size, k);
        let lo = chunk_start(s.len(), size, k as int);
        let hi = chunk_start(s.len(), size, n as int);
        let left = fold_chunks(s, size, k, first, second);
        let part = chunk(s, size, k as int);
        let right = rewrite(part, first, second);
        lemma_rewrite_len(part, first, second);
        if at + 1 < lo {
            lemma_fold_chunks_shrinks(s, size, k, first, second, at);
        } else if at >= lo {
            lemma_rewrite_shrinks(part, first, second, at - lo);
        } else {
            assert(part[0] == s[at + 1]);
            if left.len() == lo && right.len() == part.len() {
                lemma_rewrite_same_len(part, first, second);
                assert(left.last() == s[at]);
                assert(right.first() == second);
            }
        }
    }
}

/// Where the pair occurs in the corpus, the chunked rewrite shortens it.
pub proof fn lemma_rewrite_chunked_shrinks(
    s: Seq<Token>,
    size: nat,
    first: Token,
    second: Token,
    at: int,
)
    requires
        size > 0,
        0 <= at,
        at + 1 < s.len(),
        s[at] == first,
        s[at + 1] == second,
    ensures
        rewrite_chunked(s, size, first, second).len() < s.len(),
{
    lemma_chunks_cover(s.len(), size);
    lemma_fold_chunks_shrinks(s, size, chunk_count(s.len(), size), first, second, at);
}

proof fn lemma_flatten_behind_head(head: Token, rest: Seq<Token>)
    ensures
        (seq![head] + rest).flatten() == head + rest.flatten(),
{
    let whole = seq![head] + rest;
    assert(whole.first() == head);
    assert(whole.drop_first() =~= rest);
}

/// A rewrite changes how the text is cut, not the text: the tokens put end
/// to end spell what they spelled before.
pub proof fn lemma_rewrite_keeps_text(s: Seq<Token>, first: Token, second: Token)
    ensures
        rewrite(s, first, second).flatten() == s.flatten(),
    decreases s.len(),
{
    if s.len() == 0 {
    } else if s.len() >= 2 && s[0] == first && s[1] == second {
        let rest = s.skip(2);
        lemma_rewrite_keeps_text(rest, first, second);
        lemma_flatten_behind_head(merged_token(first, second), rewrite(rest, first, second));
        assert(s =~= seq![s[0]] + s.skip(1));
        assert(s.skip(1) =~= seq![s[1]] + rest);
        lemma_flatten_behind_head(s[0], s.skip(1));
        lemma_flatten_behind_head(s[1], rest);
        assert(merged_token(first, second) + rest.flatten() =~= s[0] + (s[1] + rest.flatten()));
    } else {
        let rest = s.skip(1);
        lemma_rewrite_keeps_text(rest, first, second);
        lemma_flatten_behind_head(s[0], rewrite(rest, first, second));
        assert(s =~= seq![s[0]] + rest);
        lemma_flatten_behind_head(s[0], rest);
    }
}

/// A join keeps the text of its two sides.
pub proof fn lemma_join_keeps_text(
    left: Seq<Token>,
    right: Seq<Token>,
    first: Token,
    second: Token,
)
    ensures
        join(left, right, first, second).flatten() == left.flatten() + right.flatten(),
{
    if left.len() > 0 && right.len() > 0 && left.last() == first && right.first() == second {
        let merged = merged_token(first, second);
        let front = left.drop_last();
        let back = right.drop_first();
        lemma_flatten_concat(front.push(merged), back);
        front.lemma_flatten_push(merged);
        front.lemma_flatten_push(first);
        assert(front.push(first) =~= left);
        assert(right =~= seq![second] + back);
        lemma_flatten_behind_head(second, back);
        assert((front.flatten() + merged) + back.flatten() =~= (front.flatten() + first) + (second
            + back.flatten()));
    } else {
        lemma_flatten_concat(left, right);
    }
}

proof fn lemma_fold_chunks_keeps_text(
    s: Seq<Token>,
    size: nat,
    n: nat,
    first: Token,
    second: Token,
)
    requires
        size > 0,
    ensures
        fold_chunks(s, size, n, first, second).flatten() == s.take(
            chunk_start(s.len(), size, n as int),
        ).flatten(),
    decreases n,
{
    if n == 0 {
        assert(s.take(0) =~= Seq::<Token>::empty());
    } else {
        let k = (n - 1) as nat;
        lemma_fold_chunks_keeps_text(s, size, k, first, second);
        lemma_chunk_start_step(s.len(), size, k);
        let lo = chunk_start(s.len(), size, k as int);
        let hi = chunk_start(s.len(), size, n as int);
        let part = chunk(s, size, k as int);
        lemma_rewrite_keeps_text(part, first, second);
        lemma_join_keeps_text(
            fold_chunks(s, size, k, first, second),
            rewrite(part, first, second),
            first,
            second,
        );
        assert(s.take(lo) + part =~= s.take(hi));
        lemma_flatten_concat(s.take(lo), part);
    }
}

/// The chunked rewrite changes how the text is cut, not the text.
pub proof fn lemma_rewrite_chunked_keeps_text(
    s: Seq<Token>,
    size: nat,
    first: Token,
    second: Token,
)
    requires
        size > 0,
    ensures
        rewrite_chunked(s, size, first, second).flatten() == s.flatten(),
{
    lemma_chunks_cover(s.len(), size);
    lemma_fold_chunks_keeps_text(s, size, chunk_count(s.len(), size), first, second);
    assert(s.take(s.len() as int) =~= s);
}

/// A rewrite of tokens that are not empty yields tokens that are not empty.
pub proof fn lemma_rewrite_keeps_tokens_nonempty(s: Seq<Token>, first: Token, second: Token)
    requires
        tokens_nonempty(s),
        first.len() > 0,
    ensures
        tokens_nonempty(rewrite(s, first, second)),
    decreases s.len(),
{
    if s.len() == 0 {
    } else if s.len() >= 2 && s[0] == first && s[1] == second {
        let rest = s.skip(2);
        assert forall|i: int| 0 <= i < rest.len() implies (#[trigger] rest[i]).len() > 0 by {
            assert(rest[i] == s[i + 2]);
        }
        lemma_rewrite_keeps_tokens_nonempty(rest, first, second);
    } else {
        let rest = s.skip(1);
        assert forall|i: int| 0 <= i < rest.len() implies (#[trigger] rest[i]).len() > 0 by {
            assert(rest[i] == s[i + 1]);
        }
        lemma_rewrite_keeps_tokens_nonempty(rest, first, second);
    }
}

proof fn lemma_fold_chunks_keeps_tokens_nonempty(
    s: Seq<Token>,
    size: nat,
    n: nat,
    first: Token,
    second: Token,
)
    requires
        size > 0,
        tokens_nonempty(s),
        first.len() > 0,
    ensures
        tokens_nonempty(fold_chunks(s, size, n, first, second)),
    decreases n,
{
    if n > 0 {
        let k = (n - 1) as nat;
        lemma_fold_chunks_keeps_tokens_nonempty(s, size, k, first, second);
        lemma_chunk_start_step(s.len(), size, k);
        let lo = chunk_start(s.len(), size, k as int);
        let part = chunk(s, size, k as int);
        assert forall|i: int| 0 <= i < part.len() implies (#[trigger] part[i]).len() > 0 by {
            assert(part[i] == s[lo + i]);
        }
        lemma_rewrite_keeps_tokens_nonempty(part, first, second);
        let left = fold_chunks(s, size, k, first, second);
        let right = rewrite(part, first, second);
        let joined = join(left, right, first, second);
        assert forall|i: int| 0 <= i < joined.len() implies (#[trigger] joined[i]).len() > 0 by {
            if left.len() > 0 && right.len() > 0 && left.last() == first && right.first() == second {
                if i < left.len() - 1 {
                    assert(joined[i] == left[i]);
                } else if i == left.len() - 1 {
                    assert(joined[i] == merged_token(first, second));
                } else {
                    assert(joined[i] == right[i - left.len() + 1]);
                }
            } else {
                if i < left.len() {
                    assert(joined[i] == left[i]);
                } else {
                    assert(joined[i] == right[i - left.len()]);
                }
            }
        }
    }
}

/// The chunked rewrite of tokens that are not empty yields tokens that are
/// not empty.
pub proof fn lemma_rewrite_chunked_keeps_tokens_nonempty(
    s: Seq<Token>,
    size: nat,
    first: Token,
    second: Token,
)
    requires
        size > 0,
        tokens_nonempty(s),
        first.len() > 0,
    ensures
        tokens_nonempty(rewrite_chunked(s, size, first, second)),
{
    lemma_fold_chunks_keeps_tokens_nonempty(s, size, chunk_count(s.len(), size), first, second);
}

/// Rewrites one chunk on a single thread.
pub fn rewrite_tokens(tokens: &[String], first: &String, second: &String, merged: &String) -> (out:
    Vec<String>)
    requires
        merged@ == merged_token(first@, second@),
    ensures
        tokens_of(out@) == rewrite(tokens_of(tokens@), first@, second@),
{
    let ghost s = tokens_of(tokens@);
    let mut out: Vec<String> = Vec::with_capacity(tokens.len());
    let mut i: usize = 0;
    assert(s.skip(0) =~= s);
    while i < tokens.len()
        invariant
            i <= tokens.len(),
            s == tokens_of(tokens@),
            merged@ == merged_token(first@, second@),
            tokens_of(out@) + rewrite(s.skip(i as int), first@, second@) == rewrite(
                s,
                first@,
                second@,
            ),
        decreases tokens.len() - i,
    {
        let ghost rest = s.skip(i as int);
        let ghost before = out@;
        if i + 1 < tokens.len() && tokens[i] == *first && tokens[i + 1] == *second {
            out.push(merged.clone());
            proof {
                lemma_tokens_of_push(before, *merged);
                assert(rest.skip(2) =~= s.skip(i + 2));
                assert(tokens_of(out@) + rewrite(s.skip(i + 2), first@, second@) =~= tokens_of(
                    before,
                ) + rewrite(rest, first@, second@));
            }
            i += 2;
        } else {
            out.push(tokens[i].clone());
            proof {
                lemma_tokens_of_push(before, tokens[i as int]);
                assert(rest.skip(1) =~= s.skip(i + 1));
                assert(tokens_of(out@) + rewrite(s.skip(i + 1), first@, second@) =~= tokens_of(
                    before,
                ) + rewrite(rest, first@, second@));
            }
            i += 1;
        }
    }
    proof {
        assert(tokens_of(out@) + Seq::<Token>::empty() =~= tokens_of(out@));
    }
    out
}

/// Calls rayon's `par_chunks`, `map` and `collect` on the corpus, with
/// [`rewrite_tokens`] as the function that is mapped. Trusted of rayon: the
/// corpus is cut into chunks of `chunk_size` tokens, the last one shorter
/// where the length is no multiple of it; the function is applied to every
/// chunk; and the results are collected one per chunk, in the order of the
/// chunks. What each result holds is then what [`rewrite_tokens`] ensures.
/// `par_chunks` panics on a chunk size of zero, which `requires` leaves out.
#[verifier::external_body]
fn rewrite_chunks(
    corpus: &Vec<String>,
    chunk_size: usize,
    first: &String,
    second: &String,
    merged: &String,
) -> (parts: Vec<Vec<String>>)
    requires
        chunk_size > 0,
        merged@ == merged_token(first@, second@),
    ensures
        parts@.len() == chunk_count(corpus@.len(), chunk_size as nat),
        forall|k: int|
            0 <= k < parts@.len() ==> tokens_of(#[trigger] parts@[k]@) == rewrite(
                chunk(tokens_of(corpus@), chunk_size as nat, k),
                first@,
                second@,
            ),
{
    corpus.par_chunks(chunk_size).map(|c| rewrite_tokens(c, first, second, merged)).collect()
}

/// Appends a rewritten chunk to what has been joined so far, collapsing the
/// two boundary tokens where they form the pair.
fn append_part(
    acc: &mut Vec<String>,
    part: Vec<String>,
    first: &String,
    second: &String,
    merged: &String,
)
    requires
        merged@ == merged_token(first@, second@),
    ensures
        tokens_of(final(acc)@) == join(tokens_of(old(acc)@), tokens_of(part@), first@, second@),
{
    let ghost whole = part@;
    let mut part = part;
    let n = acc.len();
    if n > 0 && part.len() > 0 && acc[n - 1] == *first && part[0] == *second {
        acc.pop();
        part.remove(0);
        acc.push(merged.clone());
    }
    acc.append(&mut part);
    proof {
        assert(tokens_of(acc@) =~= join(tokens_of(old(acc)@), tokens_of(whole), first@, second@));
    }
}

/// The Rewrite step over the whole corpus: chunks of `chunk_size` tokens are
/// rewritten in parallel and joined from left to right.
pub fn rewrite_parallel(
    corpus: &Vec<String>,
    chunk_size: usize,
    first: &String,
    second: &String,
    merged: &String,
) -> (out: Vec<String>)
    requires
        chunk_size > 0,
        merged@ == merged_token(first@, second@),
    ensures
        tokens_of(out@) == rewrite_chunked(tokens_of(corpus@), chunk_size as nat, first@, second@),
{
    let parts = rewrite_chunks(corpus, chunk_size, first, second, merged);
    let ghost s = tokens_of(corpus@);
    let ghost rewritten = parts@;
    let mut acc: Vec<String> = Vec::new();
    assert(tokens_of(acc@) =~= Seq::<Token>::empty());
    for part in it: parts
        invariant
            merged@ == merged_token(first@, second@),
            it.seq() == rewritten,
            forall|k: int|
                0 <= k < rewritten.len() ==> tokens_of(#[trigger] rewritten[k]@) == rewrite(
                    chunk(s, chunk_size as nat, k),
                    first@,
                    second@,
                ),
            tokens_of(acc@) == fold_chunks(s, chunk_size as nat, it.index() as nat, first@, second@),
    {
        append_part(&mut acc, part, first, second, merged);
    }
    acc
}

} // verus!
