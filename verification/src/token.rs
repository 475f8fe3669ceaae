//! Tokens: the sequences of characters that a corpus and a vocabulary are
//! made of.

use vstd::prelude::*;

verus! {

/// A token is a finite sequence of characters.
pub type Token = Seq<char>;

/// The token sequence that a vector of strings stands for.
pub open spec fn tokens_of(v: Seq<String>) -> Seq<Token> {
    Seq::new(v.len(), |i: int| v[i]@)
}

/// Every token holds at least one character.
pub open spec fn tokens_nonempty(s: Seq<Token>) -> bool {
    forall|i: int| 0 <= i < s.len() ==> (#[trigger] s[i]).len() > 0
}

/// The token that a merge of `first` and `second` adds.
pub open spec fn merged_token(first: Token, second: Token) -> Token {
    first + second
}

/// Pushing a string pushes its token.
pub proof fn lemma_tokens_of_push(v: Seq<String>, x: String)
    ensures
        tokens_of(v.push(x)) == tokens_of(v).push(x@),
{
    assert(tokens_of(v.push(x)) =~= tokens_of(v).push(x@));
}

} // verus!
