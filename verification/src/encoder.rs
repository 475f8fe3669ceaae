//! The greedy encoder: a text is cut, from the left, into the longest
//! vocabulary entries that match, and each is mapped to its id.

use crate::token::{lemma_tokens_of_push, tokens_of, Token};
use crate::trainer::Tokenizer;
use vstd::hash_map::StringHashMap;
use vstd::prelude::*;
use vstd::string::{StrSliceExecFns, StringExecFns};

verus! {

/// Why a text could not be encoded.
#[derive(Debug, PartialEq, Eq)]
pub enum EncodeError {
    /// No vocabulary entry matches the text at `position`, where `character`
    /// stands. Positions count characters.
    UnknownToken { position: usize, character: char },
    /// A token has no id, because the vocabulary does not hold it.
    TokenNotFound { token: String },
}

/// Where the longest vocabulary entry ends that begins at `from` and ends at
/// `upto` or before it; `from` itself where there is none.
pub open spec fn longest_match_upto(
    vocabulary: Seq<Token>,
    text: Seq<char>,
    from: int,
    upto: int,
) -> int
    decreases upto - from,
{
    if upto <= from {
        from
    } else if vocabulary.contains(text.subrange(from, upto)) {
        upto
    } else {
        longest_match_upto(vocabulary, text, from, upto - 1)
    }
}

/// Where the longest vocabulary entry ends that matches `text` at `from`;
/// `from` itself where no entry matches there.
pub open spec fn longest_match(vocabulary: Seq<Token>, text: Seq<char>, from: int) -> int {
    longest_match_upto(vocabulary, text, from, text.len() as int)
}

/// The greedy cut of `text` from position `from` on: the tokens, or the
/// first position at which no vocabulary entry matches.
pub open spec fn greedy_tokens(vocabulary: Seq<Token>, text: Seq<char>, from: int) -> Result<
    Seq<Token>,
    int,
>
    decreases text.len() - from,
    via greedy_tokens_decreases
{
    if from >= text.len() {
        Ok(Seq::empty())
    } else {
        let end = longest_match(vocabulary, text, from);
        if end <= from {
            Err(from)
        } else {
            match greedy_tokens(vocabulary, text, end) {
                Ok(rest) => Ok(seq![text.subrange(from, end)] + rest),
                Err(at) => Err(at),
            }
        }
    }
}

#[via_fn]
proof fn greedy_tokens_decreases(vocabulary: Seq<Token>, text: Seq<char>, from: int) {
    if from < text.len() {
        lemma_longest_match_range(vocabulary, text, from, text.len() as int);
    }
}

/// The longest match ends between `from` and `upto`.
pub proof fn lemma_longest_match_range(
    vocabulary: Seq<Token>,
    text: Seq<char>,
    from: int,
    upto: int,
)
    requires
        from <= upto,
    ensures
        from <= longest_match_upto(vocabulary, text, from, upto) <= upto,
    decreases upto - from,
{
    if upto > from && !vocabulary.contains(text.subrange(from, upto)) {
        lemma_longest_match_range(vocabulary, text, from, upto - 1);
    }
}

/// Whether `id` is the id of `token`: the index of its first occurrence in
/// the vocabulary.
pub open spec fn is_id_of(vocabulary: Seq<Token>, token: Token, id: int) -> bool {
    &&& 0 <= id < vocabulary.len()
    &&& vocabulary[id] == token
    &&& forall|j: int| 0 <= j < id ==> vocabulary[j] != token
}

/// Whether `ids` holds, position by position, the ids of `tokens`.
pub open spec fn are_ids_of(vocabulary: Seq<Token>, tokens: Seq<Token>, ids: Seq<usize>) -> bool {
    &&& ids.len() == tokens.len()
    &&& forall|k: int| 0 <= k < ids.len() ==> is_id_of(vocabulary, tokens[k], #[trigger] ids[k] as int)
}

/// The vocabulary entries that `ids` name, where every id is in range.
pub open spec fn entries(vocabulary: Seq<Token>, ids: Seq<usize>) -> Seq<Token> {
    Seq::new(ids.len(), |k: int| vocabulary[ids[k] as int])
}

/// Whether every id names a vocabulary entry.
pub open spec fn ids_in_range(vocabulary: Seq<Token>, ids: Seq<usize>) -> bool {
    forall|k: int| 0 <= k < ids.len() ==> #[trigger] ids[k] < vocabulary.len()
}

/// The longest match is a match, and no longer entry matches.
pub proof fn lemma_longest_match(vocabulary: Seq<Token>, text: Seq<char>, from: int, upto: int)
    requires
        0 <= from <= upto <= text.len(),
    ensures
        from <= longest_match_upto(vocabulary, text, from, upto) <= upto,
        longest_match_upto(vocabulary, text, from, upto) > from ==> vocabulary.contains(
            text.subrange(from, longest_match_upto(vocabulary, text, from, upto)),
        ),
        forall|end: int|
            longest_match_upto(vocabulary, text, from, upto) < end <= upto
                ==> !vocabulary.contains(#[trigger] text.subrange(from, end)),
    decreases upto - from,
{
    if upto > from && !vocabulary.contains(text.subrange(from, upto)) {
        lemma_longest_match(vocabulary, text, from, upto - 1);
    }
}

/// What the greedy cut yields: vocabulary entries that, put end to end, are
/// the text from `from` on.
pub proof fn lemma_greedy_tokens_cover(vocabulary: Seq<Token>, text: Seq<char>, from: int)
    requires
        0 <= from <= text.len(),
    ensures
        greedy_tokens(vocabulary, text, from) matches Ok(tokens) ==> {
            &&& tokens.flatten() == text.skip(from)
            &&& forall|k: int| 0 <= k < tokens.len() ==> vocabulary.contains(#[trigger] tokens[k])
        },
    decreases text.len() - from,
{
    if from >= text.len() {
        assert(text.skip(from) =~= Seq::<char>::empty());
    } else {
        let end = longest_match(vocabulary, text, from);
        lemma_longest_match(vocabulary, text, from, text.len() as int);
        if end > from {
            lemma_greedy_tokens_cover(vocabulary, text, end);
            match greedy_tokens(vocabulary, text, end) {
                Ok(rest) => {
                    let head = text.subrange(from, end);
                    let tokens = seq![head] + rest;
                    assert(tokens.first() == head);
                    assert(tokens.drop_first() =~= rest);
                    assert(head + text.skip(end) =~= text.skip(from));
                    assert forall|k: int| 0 <= k < tokens.len() implies vocabulary.contains(
                        #[trigger] tokens[k],
                    ) by {
                        if k > 0 {
                            assert(tokens[k] == rest[k - 1]);
                        }
                    }
                },
                Err(_) => {},
            }
        }
    }
}

/// Ids of the tokens of a greedy cut name entries that, put end to end, are
/// the text: decoding undoes encoding.
pub proof fn lemma_decode_encode(vocabulary: Seq<Token>, text: Seq<char>, ids: Seq<usize>)
    requires
        greedy_tokens(vocabulary, text, 0) matches Ok(tokens) && are_ids_of(vocabulary, tokens, ids),
    ensures
        ids_in_range(vocabulary, ids),
        entries(vocabulary, ids).flatten() == text,
{
    lemma_greedy_tokens_cover(vocabulary, text, 0);
    let tokens = greedy_tokens(vocabulary, text, 0)->Ok_0;
    assert(entries(vocabulary, ids) =~= tokens);
    assert(text.skip(0) =~= text);
}

/// A text of which every character is a vocabulary entry by itself can be
/// encoded.
pub proof fn lemma_greedy_tokens_succeed(vocabulary: Seq<Token>, text: Seq<char>, from: int)
    requires
        0 <= from <= text.len(),
        forall|i: int| from <= i < text.len() ==> vocabulary.contains(seq![#[trigger] text[i]]),
    ensures
        greedy_tokens(vocabulary, text, from) is Ok,
    decreases text.len() - from,
{
    if from < text.len() {
        let end = longest_match(vocabulary, text, from);
        lemma_longest_match(vocabulary, text, from, text.len() as int);
        assert(text.subrange(from, from + 1) =~= seq![text[from]]);
        assert(end > from);
        lemma_greedy_tokens_succeed(vocabulary, text, end);
    }
}

/// The ids of all vocabulary entries, by token.
fn index_vocabulary(vocabulary: &Vec<String>) -> (index: StringHashMap<usize>)
    ensures
        forall|t: Token| #[trigger] index@.contains_key(t) <==> tokens_of(vocabulary@).contains(t),
        forall|t: Token|
            #[trigger] index@.contains_key(t) ==> is_id_of(tokens_of(vocabulary@), t, index@[t] as int),
{
    let ghost v = tokens_of(vocabulary@);
    let mut index: StringHashMap<usize> = StringHashMap::new();
    let mut k: usize = 0;
    while k < vocabulary.len()
        invariant
            k <= vocabulary.len(),
            v == tokens_of(vocabulary@),
            forall|j: int| 0 <= j < k ==> index@.contains_key(#[trigger] v[j]),
            forall|t: Token|
                #[trigger] index@.contains_key(t) ==> index@[t] < k && is_id_of(v, t, index@[t] as int),
        decreases vocabulary.len() - k,
    {
        let entry: &String = &vocabulary[k];
        assert(entry@ == v[k as int]);
        if !index.contains_key(entry.as_str()) {
            index.insert(entry.clone(), k);
        }
        k += 1;
    }
    index
}

/// The greedy cut of `text` against an indexed vocabulary.
fn match_tokens(index: &StringHashMap<usize>, text: &str, Ghost(v): Ghost<Seq<Token>>) -> (result:
    Result<Vec<String>, EncodeError>)
    requires
        forall|t: Token| #[trigger] index@.contains_key(t) <==> v.contains(t),
    ensures
        match greedy_tokens(v, text@, 0) {
            Ok(tokens) => result matches Ok(found) && tokens_of(found@) == tokens,
            Err(at) => result matches Err(EncodeError::UnknownToken { position, character })
                && position == at && character == text@[at],
        },
{
    let n: usize = text.unicode_len();
    let mut found: Vec<String> = Vec::new();
    let mut i: usize = 0;
    assert(tokens_of(found@) =~= Seq::<Token>::empty());
    while i < n
        invariant
            i <= n,
            n == text@.len(),
            forall|t: Token| #[trigger] index@.contains_key(t) <==> v.contains(t),
            match greedy_tokens(v, text@, i as int) {
                Ok(rest) => greedy_tokens(v, text@, 0) == Ok::<Seq<Token>, int>(
                    tokens_of(found@) + rest,
                ),
                Err(at) => greedy_tokens(v, text@, 0) == Err::<Seq<Token>, int>(at),
            },
        decreases n - i,
    {
        let mut end: usize = n;
        while end > i && !index.contains_key(text.substring_char(i, end))
            invariant
                i <= end <= n,
                n == text@.len(),
                forall|t: Token| #[trigger] index@.contains_key(t) <==> v.contains(t),
                longest_match_upto(v, text@, i as int, end as int) == longest_match(
                    v,
                    text@,
                    i as int,
                ),
            decreases end,
        {
            end -= 1;
        }
        if end <= i {
            return Err(EncodeError::UnknownToken { position: i, character: text.get_char(i) });
        }
        let ghost so_far = found@;
        let token: String = String::from_str(text.substring_char(i, end));
        proof {
            lemma_tokens_of_push(so_far, token);
            match greedy_tokens(v, text@, end as int) {
                Ok(rest) => {
                    assert(tokens_of(so_far).push(token@) + rest =~= tokens_of(so_far) + (
                    seq![token@] + rest));
                },
                Err(_) => {},
            }
        }
        found.push(token);
        i = end;
    }
    proof {
        assert(tokens_of(found@) + Seq::<Token>::empty() =~= tokens_of(found@));
    }
    Ok(found)
}

impl Tokenizer {
    /// Cuts `text` into vocabulary entries: at each position the longest
    /// entry of `token_list` that matches is taken. Fails at the first
    /// position where none matches.
    pub fn string_to_tokens(token_list: &Vec<String>, text: &str) -> (result: Result<
        Vec<String>,
        EncodeError,
    >)
        ensures
            match greedy_tokens(tokens_of(token_list@), text@, 0) {
                Ok(tokens) => result matches Ok(found) && tokens_of(found@) == tokens,
                Err(at) => result matches Err(EncodeError::UnknownToken { position, character })
                    && position == at && character == text@[at],
            },
    {
        let index = index_vocabulary(token_list);
        match_tokens(&index, text, Ghost(tokens_of(token_list@)))
    }

    /// The id of `token`: the index of its first occurrence in the
    /// vocabulary.
    pub fn token_to_id(&self, token: &String) -> (result: Result<usize, EncodeError>)
        ensures
            match result {
                Ok(id) => is_id_of(self@.vocabulary, token@, id as int),
                Err(e) => {
                    &&& !self@.vocabulary.contains(token@)
                    &&& e matches EncodeError::TokenNotFound { token: named }
                    &&& named@ == token@
                },
            },
    {
        let dict = self.dict();
        let ghost v = tokens_of(dict@);
        let mut k: usize = 0;
        while k < dict.len()
            invariant
                k <= dict.len(),
                v == tokens_of(dict@),
                v == self@.vocabulary,
                forall|j: int| 0 <= j < k ==> v[j] != token@,
            decreases dict.len() - k,
        {
            assert(dict[k as int]@ == v[k as int]);
            if dict[k] == *token {
                return Ok(k);
            }
            k += 1;
        }
        Err(EncodeError::TokenNotFound { token: token.clone() })
    }

    /// Encodes `text`: the ids of the tokens of its greedy cut. Fails at
    /// the first position where no vocabulary entry matches.
    pub fn tokenize(&self, text: String) -> (result: Result<Vec<usize>, EncodeError>)
        ensures
            match greedy_tokens(self@.vocabulary, text@, 0) {
                Ok(tokens) => result matches Ok(ids) && are_ids_of(self@.vocabulary, tokens, ids@)
                    && ids_in_range(self@.vocabulary, ids@) && entries(
                    self@.vocabulary,
                    ids@,
                ).flatten() == text@,
                Err(at) => result matches Err(EncodeError::UnknownToken { position, character })
                    && position == at && character == text@[at],
            },
    {
        let dict = self.dict();
        let ghost v = tokens_of(dict@);
        let index = index_vocabulary(dict);
        let found: Vec<String> = match match_tokens(&index, text.as_str(), Ghost(v)) {
            Ok(found) => found,
            Err(e) => { return Err(e); },
        };
        let ghost tokens = tokens_of(found@);
        proof {
            lemma_greedy_tokens_cover(v, text@, 0);
        }
        let mut ids: Vec<usize> = Vec::with_capacity(found.len());
        let mut k: usize = 0;
        while k < found.len()
            invariant
                k <= found.len(),
                tokens == tokens_of(found@),
                ids@.len() == k,
                forall|t: Token| #[trigger] index@.contains_key(t) <==> v.contains(t),
                forall|t: Token|
                    #[trigger] index@.contains_key(t) ==> is_id_of(v, t, index@[t] as int),
                forall|j: int| 0 <= j < tokens.len() ==> v.contains(#[trigger] tokens[j]),
                forall|j: int| 0 <= j < k ==> is_id_of(v, tokens[j], #[trigger] ids@[j] as int),
            decreases found.len() - k,
        {
            assert(found[k as int]@ == tokens[k as int]);
            match index.get(found[k].as_str()) {
                Some(id) => {
                    ids.push(*id);
                },
                None => {
                    return Err(EncodeError::TokenNotFound { token: found[k].clone() });
                },
            }
            k += 1;
        }
        proof {
            lemma_decode_encode(v, text@, ids@);
        }
        Ok(ids)
    }

    /// The vocabulary entries that `ids` name, or `None` where an id names
    /// none.
    pub fn ids_to_tokens(&self, ids: &Vec<usize>) -> (result: Option<Vec<String>>)
        ensures
            match result {
                Some(tokens) => ids_in_range(self@.vocabulary, ids@) && tokens_of(tokens@)
                    == entries(self@.vocabulary, ids@),
                None => !ids_in_range(self@.vocabulary, ids@),
            },
    {
        let dict = self.dict();
        let ghost v = tokens_of(dict@);
        let mut tokens: Vec<String> = Vec::with_capacity(ids.len());
        let mut k: usize = 0;
        while k < ids.len()
            invariant
                k <= ids.len(),
                v == tokens_of(dict@),
                v == self@.vocabulary,
                tokens@.len() == k,
                forall|j: int| 0 <= j < k ==> #[trigger] ids@[j] < v.len(),
                forall|j: int| 0 <= j < k ==> (#[trigger] tokens@[j])@ == v[ids@[j] as int],
            decreases ids.len() - k,
        {
            let id: usize = ids[k];
            if id >= dict.len() {
                return None;
            }
            tokens.push(dict[id].clone());
            k += 1;
        }
        assert(tokens_of(tokens@) =~= entries(v, ids@));
        Some(tokens)
    }

    /// Decodes `ids`: the entries that they name, put end to end; `None`
    /// where an id names none.
    pub fn decode(&self, ids: &Vec<usize>) -> (result: Option<String>)
        ensures
            match result {
                Some(text) => ids_in_range(self@.vocabulary, ids@) && text@ == entries(
                    self@.vocabulary,
                    ids@,
                ).flatten(),
                None => !ids_in_range(self@.vocabulary, ids@),
            },
    {
        let dict = self.dict();
        let ghost v = tokens_of(dict@);
        let mut text: String = String::new();
        let mut k: usize = 0;
        assert(entries(v, ids@.take(0)) =~= Seq::<Token>::empty());
        while k < ids.len()
            invariant
                k <= ids.len(),
                v == tokens_of(dict@),
                v == self@.vocabulary,
                forall|j: int| 0 <= j < k ==> #[trigger] ids@[j] < v.len(),
                text@ == entries(v, ids@.take(k as int)).flatten(),
            decreases ids.len() - k,
        {
            let id: usize = ids[k];
            if id >= dict.len() {
                return None;
            }
            proof {
                assert(entries(v, ids@.take(k + 1)) =~= entries(v, ids@.take(k as int)).push(
                    v[id as int],
                ));
                entries(v, ids@.take(k as int)).lemma_flatten_push(v[id as int]);
            }
            text.append(dict[id].as_str());
            k += 1;
        }
        assert(ids@.take(ids@.len() as int) =~= ids@);
        Some(text)
    }
}

} // verus!
