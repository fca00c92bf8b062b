use vstd::prelude::*;

verus! {

/// Which way a parenthesis faces.
#[derive(Debug, Clone, Copy, PartialEq, Eq, Structural, PartialOrd, Ord)]
pub enum Direction {
    Open,
    Close,
}

/// The operator symbols of an expression.
#[derive(Debug, Clone, Copy, PartialEq, Eq, Structural, PartialOrd, Ord)]
pub enum Operator {
    Parenthesis(Direction),
    Div,
    Mul,
    Sub,
    Add,
}

/// The operator that a single character denotes, if any.
pub open spec fn symbol_operator(c: char) -> Option<Operator> {
    if c == '(' {
        Some(Operator::Parenthesis(Direction::Open))
    } else if c == ')' {
        Some(Operator::Parenthesis(Direction::Close))
    } else if c == '/' {
        Some(Operator::Div)
    } else if c == '*' {
        Some(Operator::Mul)
    } else if c == '-' {
        Some(Operator::Sub)
    } else if c == '+' {
        Some(Operator::Add)
    } else {
        None
    }
}

impl Operator {
    /// The operator for `c`, or `None` where `c` is no operator symbol.
    pub fn from_symbol(c: char) -> (r: Option<Operator>)
        ensures
            r == symbol_operator(c),
    {
        match c {
            '(' => Some(Operator::Parenthesis(Direction::Open)),
            ')' => Some(Operator::Parenthesis(Direction::Close)),
            '/' => Some(Operator::Div),
            '*' => Some(Operator::Mul),
            '-' => Some(Operator::Sub),
            '+' => Some(Operator::Add),
            _ => None,
        }
    }
}

impl TryFrom<char> for Operator {
    type Error = ();

    fn try_from(value: char) -> Result<Self, Self::Error> {
        match Operator::from_symbol(value) {
            Some(op) => Ok(op),
            None => Err(()),
        }
    }
}

impl vstd::std_specs::convert::TryFromSpecImpl<char> for Operator {
    open spec fn obeys_try_from_spec() -> bool {
        true
    }

    open spec fn try_from_spec(v: char) -> Result<Self, ()> {
        match symbol_operator(v) {
            Some(op) => Ok(op),
            None => Err(()),
        }
    }
}

} // verus!

verus! {

/// A lexical unit of an expression.
#[derive(Debug, PartialEq, Eq)]
pub enum Token {
    Literal(i128),
    Operator(Operator),
    Variable(String),
}

/// The mathematical value of a token: a literal as an unbounded integer and
/// a variable's name as its characters.
pub enum TokenModel {
    Literal(int),
    Operator(Operator),
    Variable(Seq<char>),
}

impl View for Token {
    type V = TokenModel;

    open spec fn view(&self) -> TokenModel {
        match self {
            Token::Literal(v) => TokenModel::Literal(*v as int),
            Token::Operator(op) => TokenModel::Operator(*op),
            Token::Variable(name) => TokenModel::Variable(name@),
        }
    }
}

/// The values of a sequence of tokens.
pub open spec fn models(ts: Seq<Token>) -> Seq<TokenModel> {
    ts.map_values(|t: Token| t@)
}

impl Token {
    /// Whether this token is an operator.
    pub fn is_operator(&self) -> (r: bool)
        ensures
            r == (self@ is Operator),
    {
        matches!(self, Token::Operator(_))
    }
}

/// What a character-by-character lexer is in the middle of.
#[derive(Debug, PartialEq, Eq, PartialOrd, Ord)]
pub enum TokenizerState {
    Idle,
    NumberParsing { is_negative: bool, chars: Vec<char> },
    VariableParsing { chars: Vec<char> },
}

/// Why an input could not be lexed.
#[derive(Debug, Clone, Copy, PartialEq, Eq, Structural)]
pub enum TokenizeError {
    /// A character that is no whitespace, letter, decimal digit or operator symbol.
    UnrecognizedCharacter(char),
    /// A run of decimal digits whose value does not fit in an `i128`.
    NumericOverflow,
}

} // verus!
