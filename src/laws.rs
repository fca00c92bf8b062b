use vstd::prelude::*;

use crate::chars::{alphabetic, white_space};
use crate::lexer::{
    decimal_value, in_run, is_digit, lemma_run_len_bounds, lexemes, lexemes_from,
    run_end, RunKind,
};
use crate::normalize::{folds_at, normalized, normalized_prefix};
use crate::token::{symbol_operator, TokenModel, TokenizeError};
use crate::tokenize::{strip_whitespace, tokens_of};

verus! {

proof fn lemma_strip_all_whitespace(s: Seq<char>)
    requires
        forall|i: int| 0 <= i < s.len() ==> white_space(#[trigger] s[i]),
    ensures
        strip_whitespace(s) == Seq::<char>::empty(),
    decreases s.len(),
{
    if s.len() > 0 {
        lemma_strip_all_whitespace(s.drop_last());
    }
}

proof fn lemma_strip_concat(a: Seq<char>, b: Seq<char>)
    ensures
        strip_whitespace(a + b) == strip_whitespace(a) + strip_whitespace(b),
    decreases b.len(),
{
    if b.len() == 0 {
        assert(a + b =~= a);
        assert(strip_whitespace(a) + strip_whitespace(b) =~= strip_whitespace(a));
    } else {
        lemma_strip_concat(a, b.drop_last());
        assert((a + b).drop_last() =~= a + b.drop_last());
        assert((a + b).last() == b.last());
        assert(strip_whitespace(a) + strip_whitespace(b.drop_last()).push(b.last())
            =~= (strip_whitespace(a) + strip_whitespace(b.drop_last())).push(b.last()));
    }
}

/// An input made of whitespace alone has no tokens.
pub proof fn whitespace_only_has_no_tokens(s: Seq<char>)
    requires
        forall|i: int| 0 <= i < s.len() ==> white_space(#[trigger] s[i]),
    ensures
        tokens_of(s) == Ok::<Seq<TokenModel>, TokenizeError>(Seq::empty()),
{
    lemma_strip_all_whitespace(s);
    assert(normalized(Seq::<TokenModel>::empty()) =~= Seq::<TokenModel>::empty());
}

/// Inserting a run of whitespace anywhere in an input leaves its tokens, or
/// its error, as they were; read the other way, so does removing one.
pub proof fn whitespace_insertion_keeps_tokens(s: Seq<char>, k: int, w: Seq<char>)
    requires
        0 <= k <= s.len(),
        forall|i: int| 0 <= i < w.len() ==> white_space(#[trigger] w[i]),
    ensures
        tokens_of(s.subrange(0, k) + w + s.subrange(k, s.len() as int)) == tokens_of(s),
{
    let front = s.subrange(0, k);
    let back = s.subrange(k, s.len() as int);
    lemma_strip_all_whitespace(w);
    lemma_strip_concat(front, w);
    lemma_strip_concat(front + w, back);
    lemma_strip_concat(front, back);
    assert(strip_whitespace(front) + Seq::<char>::empty() =~= strip_whitespace(front));
    assert(front + back =~= s);
}

/// Whether lexing `cs` must fail at index `j`: the character there starts no
/// token, or it starts, after no digit, a run of digits that is no letter
/// and whose value exceeds `i128::MAX`.
pub open spec fn fails_at(cs: Seq<char>, j: int) -> bool {
    0 <= j < cs.len() && {
        let c = cs[j];
        ||| (!alphabetic(c) && !is_digit(c) && symbol_operator(c) is None)
        ||| (is_digit(c) && !alphabetic(c) && (j == 0 || !is_digit(cs[j - 1]))
            && decimal_value(cs.subrange(j, run_end(cs, j, RunKind::Digits))) > i128::MAX)
    }
}

proof fn lemma_lexing_fails_before(cs: Seq<char>, i: int, j: int)
    requires
        0 <= i <= j,
        fails_at(cs, j),
    ensures
        lexemes_from(cs, i) is Err,
    decreases cs.len() - i,
{
    let c = cs[i];
    if i == j {
        return;
    }
    if alphabetic(c) {
        let e = run_end(cs, i, RunKind::Letters);
        lemma_run_len_bounds(cs, i + 1, RunKind::Letters);
        if e > j {
            assert(alphabetic(cs[j]));
        }
        lemma_lexing_fails_before(cs, e, j);
    } else if is_digit(c) {
        let e = run_end(cs, i, RunKind::Digits);
        lemma_run_len_bounds(cs, i + 1, RunKind::Digits);
        if e > j {
            assert(is_digit(cs[j]));
            if j - 1 > i {
                assert(is_digit(cs[j - 1]));
            }
        }
        lemma_lexing_fails_before(cs, e, j);
    } else {
        lemma_lexing_fails_before(cs, i + 1, j);
    }
}

/// Lexing fails where the whitespace-free form of the input holds a
/// character that starts no token, or a run of digits too large for an
/// `i128` that follows no digit and is no letter.
pub proof fn failure_is_reported(s: Seq<char>, j: int)
    requires
        fails_at(strip_whitespace(s), j),
    ensures
        tokens_of(s) is Err,
{
    lemma_lexing_fails_before(strip_whitespace(s), 0, j);
}

/// A character of the input that is no whitespace and starts no token makes
/// tokenizing fail.
pub proof fn unrecognized_character_fails(s: Seq<char>, i: int)
    requires
        0 <= i < s.len(),
        !white_space(s[i]),
        !alphabetic(s[i]),
        !is_digit(s[i]),
        symbol_operator(s[i]) is None,
    ensures
        tokens_of(s) is Err,
{
    let front = s.subrange(0, i);
    let mid = s.subrange(i, i + 1);
    let back = s.subrange(i + 1, s.len() as int);
    assert(front + mid + back =~= s);
    lemma_strip_concat(front, mid);
    lemma_strip_concat(front + mid, back);
    assert(mid.drop_last() =~= Seq::<char>::empty());
    assert(strip_whitespace(mid) == seq![s[i]]) by {
        assert(strip_whitespace(Seq::<char>::empty()).push(s[i]) =~= seq![s[i]]);
    }
    let j = strip_whitespace(front).len() as int;
    assert(strip_whitespace(s)[j] == s[i]);
    failure_is_reported(s, j);
}

/// Whether `cs[a..b]` is a run of decimal digits that no digit follows and
/// that starts the sequence, follows a character that is no digit, or
/// follows a letter.
pub open spec fn digit_run_at(cs: Seq<char>, a: int, b: int) -> bool {
    &&& 0 <= a < b <= cs.len()
    &&& forall|q: int| a <= q < b ==> is_digit(#[trigger] cs[q])
    &&& b == cs.len() || !is_digit(cs[b])
    &&& a == 0 || !is_digit(cs[a - 1]) || alphabetic(cs[a - 1])
}

/// What holds of every index at which the lexer starts a token.
spec fn token_boundary(cs: Seq<char>, i: int) -> bool {
    ||| i == 0
    ||| i >= cs.len()
    ||| !is_digit(cs[i - 1])
    ||| alphabetic(cs[i - 1])
    ||| !is_digit(cs[i])
}

proof fn lemma_literal_from_run(cs: Seq<char>, i: int, k: int)
    requires
        0 <= i,
        token_boundary(cs, i),
        lexemes_from(cs, i) is Ok,
        0 <= k < lexemes_from(cs, i)->Ok_0.len(),
        lexemes_from(cs, i)->Ok_0[k] is Literal,
    ensures
        exists|a: int, b: int|
            digit_run_at(cs, a, b) && lexemes_from(cs, i)->Ok_0[k] == TokenModel::Literal(
                decimal_value(#[trigger] cs.subrange(a, b)),
            ),
    decreases cs.len() - i,
{
    let c = cs[i];
    let ts = lexemes_from(cs, i)->Ok_0;
    if alphabetic(c) {
        let e = run_end(cs, i, RunKind::Letters);
        lemma_run_len_bounds(cs, i + 1, RunKind::Letters);
        let rest = lexemes_from(cs, e)->Ok_0;
        assert(ts == seq![TokenModel::Variable(cs.subrange(i, e))] + rest);
        assert(k > 0);
        assert(ts[k] == rest[k - 1]);
        if e - 1 > i {
            assert(alphabetic(cs[e - 1]));
        }
        lemma_literal_from_run(cs, e, k - 1);
    } else if is_digit(c) {
        let e = run_end(cs, i, RunKind::Digits);
        lemma_run_len_bounds(cs, i + 1, RunKind::Digits);
        let rest = lexemes_from(cs, e)->Ok_0;
        assert(ts == seq![TokenModel::Literal(decimal_value(cs.subrange(i, e)))] + rest);
        if k == 0 {
            assert forall|q: int| i <= q < e implies is_digit(#[trigger] cs[q]) by {
                if q > i {
                    assert(in_run(cs[q], RunKind::Digits));
                }
            }
            assert(digit_run_at(cs, i, e));
        } else {
            assert(ts[k] == rest[k - 1]);
            lemma_literal_from_run(cs, e, k - 1);
        }
    } else {
        let rest = lexemes_from(cs, i + 1)->Ok_0;
        assert(ts =~= seq![TokenModel::Operator(symbol_operator(c)->Some_0)] + rest);
        assert(ts[k] == rest[k - 1]);
        lemma_literal_from_run(cs, i + 1, k - 1);
    }
}

proof fn lemma_normalized_prefix_extends(t: Seq<TokenModel>, a: int, b: int)
    requires
        0 <= a <= b,
    ensures
        normalized_prefix(t, a).len() <= normalized_prefix(t, b).len(),
        forall|q: int|
            0 <= q < normalized_prefix(t, a).len() ==> #[trigger] normalized_prefix(t, b)[q]
                == normalized_prefix(t, a)[q],
    decreases b - a,
{
    if a < b {
        lemma_normalized_prefix_extends(t, a, b - 1);
    }
}

/// A literal that is not folded comes out with the exact base-ten value of
/// the run of digits it was lexed from, with no sign applied, at the place
/// in the output that the tokens before it leave for it.
pub proof fn unfolded_literal_keeps_digit_value(s: Seq<char>, k: int)
    requires
        lexemes(strip_whitespace(s)) is Ok,
        0 <= k < lexemes(strip_whitespace(s))->Ok_0.len(),
        lexemes(strip_whitespace(s))->Ok_0[k] is Literal,
        !folds_at(lexemes(strip_whitespace(s))->Ok_0, k),
    ensures
        tokens_of(s) is Ok,
        exists|a: int, b: int|
            digit_run_at(strip_whitespace(s), a, b) && tokens_of(s)->Ok_0[normalized_prefix(
                lexemes(strip_whitespace(s))->Ok_0,
                k,
            ).len() as int] == TokenModel::Literal(
                decimal_value(#[trigger] strip_whitespace(s).subrange(a, b)),
            ),
{
    let cs = strip_whitespace(s);
    let raw = lexemes(cs)->Ok_0;
    lemma_literal_from_run(cs, 0, k);
    assert(!folds_at(raw, k + 1));
    assert(normalized_prefix(raw, k + 1) == normalized_prefix(raw, k).push(raw[k]));
    lemma_normalized_prefix_extends(raw, k + 1, raw.len() as int);
}

} // verus!
