use vstd::prelude::*;

use crate::chars::white_space;
use crate::lexer::{lemma_lexemes_nonneg, lex, lexemes, result_models};
use crate::normalize::{fix_tokens, negations_fit, normalized};
use crate::token::{models, Token, TokenModel, TokenizeError};

verus! {

/// `s` with every whitespace character left out.
pub open spec fn strip_whitespace(s: Seq<char>) -> Seq<char>
    decreases s.len(),
{
    if s.len() == 0 {
        Seq::empty()
    } else {
        let front = strip_whitespace(s.drop_last());
        if white_space(s.last()) {
            front
        } else {
            front.push(s.last())
        }
    }
}

/// The tokens of an expression: whitespace is dropped, the rest is lexed,
/// and each doubled-operator minus is folded into the literal after it.
pub open spec fn tokens_of(s: Seq<char>) -> Result<Seq<TokenModel>, TokenizeError> {
    match lexemes(strip_whitespace(s)) {
        Ok(t) => Ok(normalized(t)),
        Err(e) => Err(e),
    }
}

/// The characters of `data` that are not whitespace, in order.
pub fn non_whitespace_chars(data: &str) -> (r: Vec<char>)
    ensures
        r@ == strip_whitespace(data@),
{
    let mut out: Vec<char> = Vec::new();
    proof {
        broadcast use vstd::string::axiom_spec_iter;
    }
    for c in it: data.chars()
        invariant
            it.seq() == data@,
            out@ == strip_whitespace(data@.subrange(0, it.index())),
    {
        let ghost k = it.index();
        assert(data@.subrange(0, k + 1).drop_last() =~= data@.subrange(0, k));
        if !c.is_whitespace() {
            out.push(c);
        }
    }
    assert(data@.subrange(0, data@.len() as int) =~= data@);
    out
}

/// Lexes an expression into tokens and folds each `-` that follows another
/// operator and precedes a literal into that literal's sign. Fails on the
/// first character that is no whitespace, letter, decimal digit or operator
/// symbol, or on a run of digits whose value exceeds `i128::MAX`.
pub fn tokenize(data: &str) -> (r: Result<Vec<Token>, TokenizeError>)
    ensures
        result_models(r) == tokens_of(data@),
{
    let chars = non_whitespace_chars(data);
    match lex(&chars) {
        Ok(mut tokens) => {
            proof {
                lemma_lexemes_nonneg(chars@, 0);
                assert(negations_fit(models(tokens@)));
            }
            fix_tokens(&mut tokens);
            Ok(tokens)
        },
        Err(e) => Err(e),
    }
}

} // verus!
