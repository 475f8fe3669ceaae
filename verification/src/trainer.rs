//! The vocabulary trainer: a working corpus and a growing vocabulary, and
//! the merge iterations that evolve them together.

use crate::rewrite::{
    lemma_rewrite_chunked_is_rewrite, lemma_rewrite_chunked_keeps_text,
    lemma_rewrite_chunked_keeps_tokens_nonempty, lemma_rewrite_chunked_shrinks,
    lemma_rewrite_single_chunk, rewrite, rewrite_chunked, rewrite_parallel, CHUNK_SIZE,
};
use crate::select::{best_position, lemma_best_position, select_pair};
use crate::token::{lemma_tokens_of_push, merged_token, tokens_nonempty, tokens_of, Token};
use vstd::prelude::*;
use vstd::string::StringExecFns;

verus! {

/// What a tokenizer holds, as mathematical values.
pub ghost struct TokenizerView {
    /// The working corpus: the training text as it is segmented now.
    pub corpus: Seq<Token>,
    /// The vocabulary; the index of an entry is its id.
    pub vocabulary: Seq<Token>,
}

/// A text as a corpus of single symbols.
pub open spec fn symbols(chars: Seq<char>) -> Seq<Token> {
    Seq::new(chars.len(), |i: int| seq![chars[i]])
}

/// The corpus after one merge iteration on a corpus of at least two tokens.
pub open spec fn merged_corpus(corpus: Seq<Token>) -> Seq<Token> {
    let p = best_position(corpus);
    rewrite_chunked(corpus, CHUNK_SIZE as nat, corpus[p], corpus[p + 1])
}

/// The vocabulary entry that one merge iteration adds.
pub open spec fn next_token(corpus: Seq<Token>) -> Token {
    let p = best_position(corpus);
    merged_token(corpus[p], corpus[p + 1])
}

/// One merge iteration. A corpus of fewer than two tokens holds no pair, and
/// nothing changes.
pub open spec fn after_merge(st: TokenizerView) -> TokenizerView {
    if st.corpus.len() < 2 {
        st
    } else {
        TokenizerView {
            corpus: merged_corpus(st.corpus),
            vocabulary: st.vocabulary.push(next_token(st.corpus)),
        }
    }
}

/// Training up to a vocabulary of `target` entries: merge iterations follow
/// one another until the vocabulary has `target` entries or the corpus holds
/// no pair.
pub open spec fn trained(st: TokenizerView, target: nat) -> TokenizerView
    decreases target - st.vocabulary.len(),
{
    if st.vocabulary.len() >= target || st.corpus.len() < 2 {
        st
    } else {
        trained(after_merge(st), target)
    }
}

/// The number of merge iterations that the corpus allows before it holds no
/// pair any more.
pub open spec fn merges_available(corpus: Seq<Token>) -> nat
    decreases corpus.len(),
    via merges_available_decreases
{
    if corpus.len() < 2 {
        0
    } else {
        1 + merges_available(merged_corpus(corpus))
    }
}

#[via_fn]
proof fn merges_available_decreases(corpus: Seq<Token>) {
    if corpus.len() >= 2 {
        lemma_merge_shortens(corpus);
    }
}

/// A merge iteration shortens the corpus.
pub proof fn lemma_merge_shortens(corpus: Seq<Token>)
    requires
        corpus.len() >= 2,
    ensures
        merged_corpus(corpus).len() < corpus.len(),
{
    lemma_best_position(corpus);
    let p = best_position(corpus);
    lemma_rewrite_chunked_shrinks(corpus, CHUNK_SIZE as nat, corpus[p], corpus[p + 1], p);
}

/// A merge iteration rewrites the corpus as a single thread would, where
/// the corpus fits into one chunk, or where the two tokens of the pair
/// differ and no token of the corpus is empty.
pub proof fn lemma_merge_is_rewrite(corpus: Seq<Token>)
    requires
        corpus.len() >= 2,
        corpus.len() <= CHUNK_SIZE || (tokens_nonempty(corpus) && corpus[best_position(corpus)]
            != corpus[best_position(corpus) + 1]),
    ensures
        merged_corpus(corpus) == rewrite(
            corpus,
            corpus[best_position(corpus)],
            corpus[best_position(corpus) + 1],
        ),
{
    lemma_best_position(corpus);
    let p = best_position(corpus);
    if corpus.len() <= CHUNK_SIZE {
        lemma_rewrite_single_chunk(corpus, CHUNK_SIZE as nat, corpus[p], corpus[p + 1]);
    } else {
        lemma_rewrite_chunked_is_rewrite(corpus, CHUNK_SIZE as nat, corpus[p], corpus[p + 1]);
    }
}

/// Training changes how the text of the corpus is cut, not the text.
pub proof fn lemma_trained_keeps_text(st: TokenizerView, target: nat)
    ensures
        trained(st, target).corpus.flatten() == st.corpus.flatten(),
    decreases target - st.vocabulary.len(),
{
    if st.vocabulary.len() >= target || st.corpus.len() < 2 {
    } else {
        let p = best_position(st.corpus);
        lemma_rewrite_chunked_keeps_text(
            st.corpus,
            CHUNK_SIZE as nat,
            st.corpus[p],
            st.corpus[p + 1],
        );
        lemma_trained_keeps_text(after_merge(st), target);
    }
}

/// Training a corpus of tokens that are not empty leaves no token empty.
pub proof fn lemma_trained_keeps_tokens_nonempty(st: TokenizerView, target: nat)
    requires
        tokens_nonempty(st.corpus),
    ensures
        tokens_nonempty(trained(st, target).corpus),
    decreases target - st.vocabulary.len(),
{
    if st.vocabulary.len() >= target || st.corpus.len() < 2 {
    } else {
        lemma_best_position(st.corpus);
        let p = best_position(st.corpus);
        lemma_rewrite_chunked_keeps_tokens_nonempty(
            st.corpus,
            CHUNK_SIZE as nat,
            st.corpus[p],
            st.corpus[p + 1],
        );
        lemma_trained_keeps_tokens_nonempty(after_merge(st), target);
    }
}

/// Training only appends: every entry that the vocabulary held before is
/// still there afterwards, at the same index.
pub proof fn lemma_trained_extends_vocabulary(st: TokenizerView, target: nat)
    ensures
        st.vocabulary.len() <= trained(st, target).vocabulary.len(),
        forall|i: int|
            0 <= i < st.vocabulary.len() ==> #[trigger] trained(st, target).vocabulary[i]
                == st.vocabulary[i],
    decreases target - st.vocabulary.len(),
{
    if st.vocabulary.len() >= target || st.corpus.len() < 2 {
    } else {
        lemma_trained_extends_vocabulary(after_merge(st), target);
    }
}

/// Training to a target that the vocabulary has not passed yet ends with
/// `target` entries, or with one entry more for each merge that the corpus
/// allows, whichever is less.
pub proof fn lemma_trained_vocabulary_len(st: TokenizerView, target: nat)
    requires
        st.vocabulary.len() <= target,
    ensures
        trained(st, target).vocabulary.len() == if target <= st.vocabulary.len()
            + merges_available(st.corpus) {
            target
        } else {
            st.vocabulary.len() + merges_available(st.corpus)
        },
    decreases target - st.vocabulary.len(),
{
    if st.vocabulary.len() >= target || st.corpus.len() < 2 {
    } else {
        lemma_trained_vocabulary_len(after_merge(st), target);
    }
}

/// A trainer: the working corpus and the vocabulary that grows from it.
pub struct Tokenizer {
    training_data: Vec<String>,
    dict: Vec<String>,
}

impl View for Tokenizer {
    type V = TokenizerView;

    closed spec fn view(&self) -> TokenizerView {
        TokenizerView {
            corpus: tokens_of(self.training_data@),
            vocabulary: tokens_of(self.dict@),
        }
    }
}

/// Calls `char::to_string`. Trusted: the string holds the character `c` and
/// nothing else.
#[verifier::external_body]
fn symbol_string(c: char) -> (s: String)
    ensures
        s@ == seq![c],
{
    c.to_string()
}

proof fn lemma_symbols_push(chars: Seq<char>, c: char)
    ensures
        symbols(chars.push(c)) == symbols(chars).push(seq![c]),
{
    assert(symbols(chars.push(c)) =~= symbols(chars).push(seq![c]));
}

impl Tokenizer {
    /// The vocabulary, in the order of the ids.
    pub fn dict(&self) -> (dict: &Vec<String>)
        ensures
            tokens_of(dict@) == self@.vocabulary,
    {
        &self.dict
    }

    /// The working corpus.
    pub fn training_data(&self) -> (corpus: &Vec<String>)
        ensures
            tokens_of(corpus@) == self@.corpus,
    {
        &self.training_data
    }

    /// A tokenizer that holds `training_data` as its working corpus and
    /// `dict` as its vocabulary, each as it stands.
    pub fn from_parts(training_data: Vec<String>, dict: Vec<String>) -> (t: Self)
        ensures
            t@.corpus == tokens_of(training_data@),
            t@.vocabulary == tokens_of(dict@),
    {
        Tokenizer { training_data, dict }
    }

    /// The working corpus and the vocabulary, handed out.
    pub fn into_parts(self) -> (parts: (Vec<String>, Vec<String>))
        ensures
            tokens_of(parts.0@) == self@.corpus,
            tokens_of(parts.1@) == self@.vocabulary,
    {
        (self.training_data, self.dict)
    }

    /// A trainer over the training sequences `data`, seeded with the starting
    /// alphabet `dict`. The corpus is the text of all sequences, one after the
    /// other with no mark between them, cut into single symbols.
    pub fn new(data: Vec<String>, dict: Vec<String>) -> (t: Self)
        requires
            data@.len() > 0,
            dict@.len() > 0,
        ensures
            t@.vocabulary == tokens_of(dict@),
            t@.corpus == symbols(tokens_of(data@).flatten()),
            tokens_nonempty(t@.corpus),
    {
        let ghost lines = tokens_of(data@);
        let mut training_data: Vec<String> = Vec::new();
        let mut k: usize = 0;
        assert(lines.take(0) =~= Seq::<Token>::empty());
        assert(tokens_of(training_data@) =~= symbols(lines.take(0).flatten()));
        while k < data.len()
            invariant
                k <= data.len(),
                lines == tokens_of(data@),
                tokens_of(training_data@) == symbols(lines.take(k as int).flatten()),
            decreases data.len() - k,
        {
            let line: &str = data[k].as_str();
            let ghost before = lines.take(k as int).flatten();
            assert(before + line@.take(0) =~= before);
            for c in it: line.chars()
                invariant
                    it.seq() == line@,
                    tokens_of(training_data@) == symbols(before + line@.take(it.index())),
            {
                let ghost so_far = training_data@;
                let symbol = symbol_string(c);
                training_data.push(symbol);
                proof {
                    lemma_tokens_of_push(so_far, symbol);
                    lemma_symbols_push(before + line@.take(it.index()), c);
                    assert((before + line@.take(it.index())).push(c) =~= before + line@.take(
                        it.index() + 1,
                    ));
                }
            }
            proof {
                assert(line@.take(line@.len() as int) =~= line@);
                assert(lines.take(k + 1) =~= lines.take(k as int).push(line@));
                lines.take(k as int).lemma_flatten_push(line@);
            }
            k += 1;
        }
        assert(lines.take(data.len() as int) =~= lines);
        Tokenizer { training_data, dict }
    }

    /// One merge iteration: Count, Select, Merge and Rewrite. Returns whether
    /// the corpus held a pair to merge.
    pub fn merge_step(&mut self) -> (merged: bool)
        ensures
            merged == (old(self)@.corpus.len() >= 2),
            final(self)@ == after_merge(old(self)@),
            final(self)@.vocabulary.len() == old(self)@.vocabulary.len() + if merged {
                1nat
            } else {
                0nat
            },
            final(self)@.vocabulary.take(old(self)@.vocabulary.len() as int) == old(
                self,
            )@.vocabulary,
    {
        match select_pair(&self.training_data) {
            None => {
                assert(self@.vocabulary.take(self@.vocabulary.len() as int) =~= self@.vocabulary);
                false
            },
            Some(p) => {
                assert(p + 1 < self.training_data.len());
                let first: String = self.training_data[p].clone();
                let second: String = self.training_data[p + 1].clone();
                let mut merged: String = first.clone();
                merged.append(second.as_str());
                let rewritten = rewrite_parallel(
                    &self.training_data,
                    CHUNK_SIZE,
                    &first,
                    &second,
                    &merged,
                );
                proof {
                    lemma_tokens_of_push(self.dict@, merged);
                }
                self.dict.push(merged);
                self.training_data = rewritten;
                assert(self@.vocabulary.take(old(self)@.vocabulary.len() as int) =~= old(
                    self,
                )@.vocabulary);
                true
            },
        }
    }

    /// Grows the vocabulary to `dict_size` entries, or as far as the corpus
    /// allows.
    pub fn train(&mut self, dict_size: usize)
        requires
            old(self)@.corpus.len() > 0,
            old(self)@.vocabulary.len() > 0,
        ensures
            final(self)@ == trained(old(self)@, dict_size as nat),
            old(self)@.vocabulary.len() <= final(self)@.vocabulary.len(),
            forall|i: int|
                0 <= i < old(self)@.vocabulary.len() ==> #[trigger] final(self)@.vocabulary[i]
                    == old(self)@.vocabulary[i],
            old(self)@.vocabulary.len() <= dict_size ==> final(self)@.vocabulary.len()
                == if dict_size <= old(self)@.vocabulary.len() + merges_available(
                old(self)@.corpus,
            ) {
                dict_size as nat
            } else {
                old(self)@.vocabulary.len() + merges_available(old(self)@.corpus)
            },
            final(self)@.corpus.flatten() == old(self)@.corpus.flatten(),
            tokens_nonempty(old(self)@.corpus) ==> tokens_nonempty(final(self)@.corpus),
    {
        while self.dict.len() < dict_size && self.training_data.len() >= 2
            invariant
                trained(self@, dict_size as nat) == trained(old(self)@, dict_size as nat),
            decreases dict_size - self.dict.len(),
        {
            let ghost before = self@;
            self.merge_step();
            assert(self@.vocabulary.len() == before.vocabulary.len() + 1);
        }
        proof {
            lemma_trained_extends_vocabulary(old(self)@, dict_size as nat);
            lemma_trained_keeps_text(old(self)@, dict_size as nat);
            if tokens_nonempty(old(self)@.corpus) {
                lemma_trained_keeps_tokens_nonempty(old(self)@, dict_size as nat);
            }
            if old(self)@.vocabulary.len() <= dict_size {
                lemma_trained_vocabulary_len(old(self)@, dict_size as nat);
            }
        }
    }
}

} // verus!
