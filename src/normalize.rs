use vstd::prelude::*;

use crate::token::{models, Operator, Token, TokenModel};

verus! {

/// Whether the literal at index `i` of `t` is negated: it follows a `-`
/// that itself follows another operator, and that operator is not the first
/// token. So neither `-5` nor `(-5)` is folded, while `1*(-5)` is.
pub open spec fn folds_at(t: Seq<TokenModel>, i: int) -> bool {
    &&& 3 <= i < t.len()
    &&& t[i] is Literal
    &&& t[i - 1] == TokenModel::Operator(Operator::Sub)
    &&& t[i - 2] is Operator
}

/// A literal with its sign flipped; any other token as it is.
pub open spec fn negated(tok: TokenModel) -> TokenModel {
    match tok {
        TokenModel::Literal(v) => TokenModel::Literal(-v),
        _ => tok,
    }
}

/// What the first `n` tokens of `t` become: each `-` that precedes a folded
/// literal is left out, each folded literal is negated, and every other
/// token stays as it is. All indices are those of `t`.
pub open spec fn normalized_prefix(t: Seq<TokenModel>, n: int) -> Seq<TokenModel>
    decreases n,
{
    if n <= 0 {
        Seq::empty()
    } else {
        let front = normalized_prefix(t, n - 1);
        let j = n - 1;
        if folds_at(t, j + 1) {
            front
        } else if folds_at(t, j) {
            front.push(negated(t[j]))
        } else {
            front.push(t[j])
        }
    }
}

/// `t` with every doubled-operator minus folded into the literal after it.
pub open spec fn normalized(t: Seq<TokenModel>) -> Seq<TokenModel> {
    normalized_prefix(t, t.len() as int)
}

/// Whether no literal that folding would negate is `i128::MIN`, whose
/// negation does not fit in an `i128`.
pub open spec fn negations_fit(t: Seq<TokenModel>) -> bool {
    forall|i: int| folds_at(t, i) ==> t[i] != TokenModel::Literal(i128::MIN as int)
}

/// Folds each `-` that follows another operator and precedes a literal into
/// that literal's sign. The places are found in one scan over the tokens as
/// they are; the `-` tokens are then removed in one pass.
pub fn fix_tokens(tokens: &mut Vec<Token>)
    requires
        negations_fit(models(old(tokens)@)),
    ensures
        models(final(tokens)@) == normalized(models(old(tokens)@)),
{
    let ghost t0 = models(tokens@);
    let n = tokens.len();
    assert(forall|j: int| 0 <= j < n ==> #[trigger] tokens@[j]@ == t0[j]);
    let mut removed: Vec<bool> = vec![false; n];
    let mut i: usize = 0;
    while i < n
        invariant
            i <= n == tokens.len() == removed.len() == t0.len(),
            negations_fit(t0),
            forall|j: int|
                0 <= j < i ==> #[trigger] tokens@[j]@ == (if folds_at(t0, j) {
                    negated(t0[j])
                } else {
                    t0[j]
                }),
            forall|j: int| i <= j < n ==> #[trigger] tokens@[j]@ == t0[j],
            forall|j: int| 0 <= j < n ==> #[trigger] removed@[j] == (j + 1 < i && folds_at(t0, j + 1)),
        decreases n - i,
    {
        let ghost cur = tokens@;
        let fold = i >= 3 && matches!(tokens[i - 1], Token::Operator(Operator::Sub))
            && tokens[i - 2].is_operator() && matches!(tokens[i], Token::Literal(_));
        proof {
            if i >= 3 {
                assert(cur[i - 1]@ == negated(t0[i - 1]) || cur[i - 1]@ == t0[i - 1]);
                assert(cur[i - 2]@ == negated(t0[i - 2]) || cur[i - 2]@ == t0[i - 2]);
            }
            assert(cur[i as int]@ == t0[i as int]);
            assert(fold == folds_at(t0, i as int));
        }
        if fold {
            if let Token::Literal(v) = tokens[i] {
                tokens.set(i, Token::Literal(-v));
                removed.set(i - 1, true);
            }
        }
        i = i + 1;
    }
    let mut out: Vec<Token> = Vec::new();
    let mut r: usize = 0;
    while r < n
        invariant
            r <= n == tokens.len() == removed.len() == t0.len(),
            forall|j: int|
                r <= j < n ==> #[trigger] tokens@[j]@ == (if folds_at(t0, j) {
                    negated(t0[j])
                } else {
                    t0[j]
                }),
            forall|j: int| 0 <= j < n ==> #[trigger] removed@[j] == (j + 1 < n && folds_at(t0, j + 1)),
            models(out@) == normalized_prefix(t0, r as int),
        decreases n - r,
    {
        let ghost before = models(out@);
        if !removed[r] {
            let mut tok = Token::Literal(0);
            tokens.set_and_swap(r, &mut tok);
            out.push(tok);
            assert(models(out@) =~= before.push(tok@));
        }
        r = r + 1;
    }
    *tokens = out;
}

} // verus!
