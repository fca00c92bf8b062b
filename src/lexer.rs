use vstd::prelude::*;

use crate::chars::{alphabetic, white_space};
use crate::token::{models, symbol_operator, Operator, Token, TokenModel, TokenizeError};

verus! {

/// The class of characters that make up a run: letters for a variable,
/// decimal digits for a literal.
#[derive(Debug, Clone, Copy, PartialEq, Eq, Structural)]
pub enum RunKind {
    Letters,
    Digits,
}

/// Whether `c` is an ASCII decimal digit.
pub open spec fn is_digit(c: char) -> bool {
    '0' <= c && c <= '9'
}

/// Whether `c` may continue a run of the given kind.
pub open spec fn in_run(c: char, kind: RunKind) -> bool {
    match kind {
        RunKind::Letters => alphabetic(c),
        RunKind::Digits => is_digit(c),
    }
}

/// How many characters of the given kind follow one another from `i` on.
pub open spec fn run_len(cs: Seq<char>, i: int, kind: RunKind) -> nat
    decreases cs.len() - i,
{
    if 0 <= i < cs.len() && in_run(cs[i], kind) {
        1 + run_len(cs, i + 1, kind)
    } else {
        0
    }
}

/// The end of the maximal run that starts with the character at `start`
/// and goes on with characters of the given kind (at most the length of
/// `cs`, which bounds every run).
pub open spec fn run_end(cs: Seq<char>, start: int, kind: RunKind) -> int {
    let e = start + 1 + run_len(cs, start + 1, kind);
    if e <= cs.len() {
        e
    } else {
        cs.len() as int
    }
}

/// The value of an ASCII decimal digit.
pub open spec fn digit_value(c: char) -> int {
    c as int - '0' as int
}

/// The base-ten value of a sequence of decimal digits.
pub open spec fn decimal_value(ds: Seq<char>) -> int
    decreases ds.len(),
{
    if ds.len() == 0 {
        0
    } else {
        decimal_value(ds.drop_last()) * 10 + digit_value(ds.last())
    }
}

pub(crate) proof fn lemma_run_len_bounds(cs: Seq<char>, i: int, kind: RunKind)
    requires
        0 <= i <= cs.len(),
    ensures
        i + run_len(cs, i, kind) <= cs.len(),
        forall|k: int| i <= k < i + run_len(cs, i, kind) ==> in_run(#[trigger] cs[k], kind),
        i + run_len(cs, i, kind) < cs.len() ==> !in_run(cs[i + run_len(cs, i, kind)], kind),
    decreases cs.len() - i,
{
    if i < cs.len() && in_run(cs[i], kind) {
        lemma_run_len_bounds(cs, i + 1, kind);
    }
}

proof fn lemma_run_len_maximal(cs: Seq<char>, i: int, e: int, kind: RunKind)
    requires
        0 <= i <= e <= cs.len(),
        forall|k: int| i <= k < e ==> in_run(#[trigger] cs[k], kind),
        e == cs.len() || !in_run(cs[e], kind),
    ensures
        run_len(cs, i, kind) == e - i,
    decreases e - i,
{
    if i < e {
        lemma_run_len_maximal(cs, i + 1, e, kind);
    }
}

/// Scans the maximal run that starts with the character at `start`, which
/// the caller has classified, and goes on while the characters are of the
/// given kind; returns the index just past the run.
pub fn parse_while(chars: &Vec<char>, start: usize, kind: RunKind) -> (end: usize)
    requires
        start < chars.len(),
    ensures
        end == run_end(chars@, start as int, kind),
        start < end <= chars.len(),
        forall|k: int| start < k < end ==> in_run(#[trigger] chars@[k], kind),
        end == chars.len() || !in_run(chars@[end as int], kind),
{
    let mut end: usize = start + 1;
    while end < chars.len()
        invariant
            start < end <= chars.len(),
            forall|k: int| start < k < end ==> in_run(#[trigger] chars@[k], kind),
        ensures
            start < end <= chars.len(),
            forall|k: int| start < k < end ==> in_run(#[trigger] chars@[k], kind),
            end == chars.len() || !in_run(chars@[end as int], kind),
        decreases chars.len() - end,
    {
        let c = chars[end];
        let more = match kind {
            RunKind::Letters => c.is_alphabetic(),
            RunKind::Digits => '0' <= c && c <= '9',
        };
        if !more {
            break;
        }
        end = end + 1;
    }
    proof {
        lemma_run_len_maximal(chars@, start + 1, end as int, kind);
    }
    end
}

proof fn lemma_decimal_value_nonneg(ds: Seq<char>)
    requires
        forall|k: int| 0 <= k < ds.len() ==> is_digit(#[trigger] ds[k]),
    ensures
        decimal_value(ds) >= 0,
    decreases ds.len(),
{
    if ds.len() > 0 {
        lemma_decimal_value_nonneg(ds.drop_last());
    }
}

/// Appending digits never makes a decimal value smaller.
proof fn lemma_decimal_value_grows(ds: Seq<char>, n: int)
    requires
        0 <= n <= ds.len(),
        forall|k: int| 0 <= k < ds.len() ==> is_digit(#[trigger] ds[k]),
    ensures
        decimal_value(ds.subrange(0, n)) <= decimal_value(ds),
    decreases ds.len(),
{
    if n == ds.len() {
        assert(ds.subrange(0, n) =~= ds);
    } else {
        let front = ds.drop_last();
        lemma_decimal_value_grows(front, n);
        lemma_decimal_value_nonneg(front);
        assert(front.subrange(0, n) =~= ds.subrange(0, n));
    }
}

/// The value of the digits `chars[start..end]`, or `None` where it does not
/// fit in an `i128`.
fn digits_value(chars: &Vec<char>, start: usize, end: usize) -> (r: Option<i128>)
    requires
        start <= end <= chars.len(),
        forall|k: int| start <= k < end ==> is_digit(#[trigger] chars@[k]),
    ensures
        ({
            let v = decimal_value(chars@.subrange(start as int, end as int));
            match r {
                Some(x) => v <= i128::MAX && x == v,
                None => v > i128::MAX,
            }
        }),
{
    let ghost ds = chars@.subrange(start as int, end as int);
    let mut value: i128 = 0;
    let mut j: usize = start;
    assert(chars@.subrange(start as int, start as int) =~= Seq::<char>::empty());
    while j < end
        invariant
            start <= j <= end <= chars.len(),
            forall|k: int| start <= k < end ==> is_digit(#[trigger] chars@[k]),
            ds == chars@.subrange(start as int, end as int),
            value == decimal_value(chars@.subrange(start as int, j as int)),
            value >= 0,
        decreases end - j,
    {
        let c = chars[j];
        let d = (c as u32 - '0' as u32) as i128;
        let ghost before = chars@.subrange(start as int, j as int);
        let ghost after = chars@.subrange(start as int, j + 1);
        assert(after.drop_last() =~= before);
        assert(is_digit(chars@[j as int]));
        assert(ds.subrange(0, j + 1 - start) =~= after);
        let next = match value.checked_mul(10) {
            Some(tens) => tens.checked_add(d),
            None => None,
        };
        match next {
            Some(v) => {
                value = v;
            },
            None => {
                proof {
                    lemma_decimal_value_grows(ds, j + 1 - start);
                }
                return None;
            },
        }
        j = j + 1;
    }
    Some(value)
}

/// `Ok(front + ts)` where `r` is `Ok(ts)`; the error of `r` otherwise.
pub open spec fn prepend(front: Seq<TokenModel>, r: Result<Seq<TokenModel>, TokenizeError>) -> Result<
    Seq<TokenModel>,
    TokenizeError,
> {
    match r {
        Ok(ts) => Ok(front + ts),
        Err(e) => Err(e),
    }
}

/// The tokens of `cs` from index `i` on, where `cs` holds no whitespace:
/// a maximal run of letters is a variable, a maximal run of digits a literal
/// (an error where its value exceeds `i128::MAX`), an operator symbol an
/// operator, and any other character an error. The first error from the
/// left is the result.
pub open spec fn lexemes_from(cs: Seq<char>, i: int) -> Result<Seq<TokenModel>, TokenizeError>
    decreases cs.len() - i,
{
    if i < 0 || i >= cs.len() {
        Ok(Seq::empty())
    } else {
        let c = cs[i];
        if alphabetic(c) {
            let e = run_end(cs, i, RunKind::Letters);
            prepend(seq![TokenModel::Variable(cs.subrange(i, e))], lexemes_from(cs, e))
        } else if is_digit(c) {
            let e = run_end(cs, i, RunKind::Digits);
            let v = decimal_value(cs.subrange(i, e));
            if v > i128::MAX {
                Err(TokenizeError::NumericOverflow)
            } else {
                prepend(seq![TokenModel::Literal(v)], lexemes_from(cs, e))
            }
        } else {
            match symbol_operator(c) {
                Some(op) => prepend(seq![TokenModel::Operator(op)], lexemes_from(cs, i + 1)),
                None => Err(TokenizeError::UnrecognizedCharacter(c)),
            }
        }
    }
}

/// The tokens of `cs`, which holds no whitespace.
pub open spec fn lexemes(cs: Seq<char>) -> Result<Seq<TokenModel>, TokenizeError> {
    lexemes_from(cs, 0)
}

/// The values of the tokens in a result.
pub open spec fn result_models(r: Result<Vec<Token>, TokenizeError>) -> Result<
    Seq<TokenModel>,
    TokenizeError,
> {
    match r {
        Ok(ts) => Ok(models(ts@)),
        Err(e) => Err(e),
    }
}

/// Every literal that lexing yields is non-negative.
pub proof fn lemma_lexemes_nonneg(cs: Seq<char>, i: int)
    requires
        0 <= i,
    ensures
        lexemes_from(cs, i) matches Ok(ts) ==> forall|k: int|
            0 <= k < ts.len() && ts[k] is Literal ==> #[trigger] ts[k]->Literal_0 >= 0,
    decreases cs.len() - i,
{
    if 0 <= i < cs.len() {
        let c = cs[i];
        if alphabetic(c) {
            let e = run_end(cs, i, RunKind::Letters);
            lemma_run_len_bounds(cs, i + 1, RunKind::Letters);
            lemma_lexemes_nonneg(cs, e);
            if let Ok(rest) = lexemes_from(cs, e) {
                let ts = seq![TokenModel::Variable(cs.subrange(i, e))] + rest;
                assert forall|k: int| 0 <= k < ts.len() && ts[k] is Literal implies #[trigger] ts[k]->Literal_0 >= 0 by {
                    assert(ts[k] == rest[k - 1]);
                }
            }
        } else if is_digit(c) {
            let e = run_end(cs, i, RunKind::Digits);
            lemma_run_len_bounds(cs, i + 1, RunKind::Digits);
            let ds = cs.subrange(i, e);
            assert forall|k: int| 0 <= k < ds.len() implies is_digit(#[trigger] ds[k]) by {
                if k > 0 {
                    assert(in_run(cs[i + k], RunKind::Digits));
                }
            }
            lemma_decimal_value_nonneg(ds);
            lemma_lexemes_nonneg(cs, e);
            if let Ok(rest) = lexemes_from(cs, e) {
                let ts = seq![TokenModel::Literal(decimal_value(ds))] + rest;
                assert forall|k: int| 0 <= k < ts.len() && ts[k] is Literal implies #[trigger] ts[k]->Literal_0 >= 0 by {
                    if k > 0 {
                        assert(ts[k] == rest[k - 1]);
                    }
                }
            }
        } else {
            lemma_lexemes_nonneg(cs, i + 1);
            if let (Some(op), Ok(rest)) = (symbol_operator(c), lexemes_from(cs, i + 1)) {
                let ts = seq![TokenModel::Operator(op)] + rest;
                assert forall|k: int| 0 <= k < ts.len() && ts[k] is Literal implies #[trigger] ts[k]->Literal_0 >= 0 by {
                    assert(ts[k] == rest[k - 1]);
                }
            }
        }
    }
}

proof fn lemma_prepend_twice(a: Seq<TokenModel>, b: Seq<TokenModel>, r: Result<Seq<TokenModel>, TokenizeError>)
    ensures
        prepend(a, prepend(b, r)) == prepend(a + b, r),
{
    if let Ok(ts) = r {
        assert(a + (b + ts) =~= (a + b) + ts);
    }
}

/// The string of the characters `chars[start..end]`.
fn collect_name(chars: &Vec<char>, start: usize, end: usize) -> (r: String)
    requires
        start <= end <= chars.len(),
    ensures
        r@ == chars@.subrange(start as int, end as int),
{
    let mut name = String::new();
    let mut j: usize = start;
    while j < end
        invariant
            start <= j <= end <= chars.len(),
            name@ == chars@.subrange(start as int, j as int),
        decreases end - j,
    {
        name.push(chars[j]);
        assert(name@ =~= chars@.subrange(start as int, j + 1));
        j = j + 1;
    }
    name
}

/// Lexes characters that hold no whitespace into tokens, stopping at the
/// first character that cannot start a token or at a literal too large.
pub fn lex(chars: &Vec<char>) -> (r: Result<Vec<Token>, TokenizeError>)
    ensures
        result_models(r) == lexemes(chars@),
{
    let mut out: Vec<Token> = Vec::new();
    let mut i: usize = 0;
    while i < chars.len()
        invariant
            i <= chars.len(),
            lexemes(chars@) == prepend(models(out@), lexemes_from(chars@, i as int)),
        decreases chars.len() - i,
    {
        let c = chars[i];
        let ghost before = models(out@);
        let ghost cs = chars@;
        let tok: Token;
        let next: usize;
        if c.is_alphabetic() {
            next = parse_while(chars, i, RunKind::Letters);
            tok = Token::Variable(collect_name(chars, i, next));
        } else if '0' <= c && c <= '9' {
            next = parse_while(chars, i, RunKind::Digits);
            match digits_value(chars, i, next) {
                Some(v) => {
                    tok = Token::Literal(v);
                },
                None => {
                    return Err(TokenizeError::NumericOverflow);
                },
            }
        } else {
            match Operator::from_symbol(c) {
                Some(op) => {
                    tok = Token::Operator(op);
                    next = i + 1;
                },
                None => {
                    return Err(TokenizeError::UnrecognizedCharacter(c));
                },
            }
        }
        proof {
            assert(lexemes_from(cs, i as int) == prepend(seq![tok@], lexemes_from(cs, next as int)));
            lemma_prepend_twice(before, seq![tok@], lexemes_from(cs, next as int));
        }
        out.push(tok);
        assert(models(out@) =~= before + seq![tok@]);
        i = next;
    }
    assert(prepend(models(out@), Ok(Seq::empty())) == Ok::<Seq<TokenModel>, TokenizeError>(models(out@))) by {
        assert(models(out@) + Seq::<TokenModel>::empty() =~= models(out@));
    }
    Ok(out)
}

} // verus!
