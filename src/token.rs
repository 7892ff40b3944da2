use vstd::prelude::*;

verus! {

/// A binary operator of a formula.
#[derive(Clone, Copy, Debug, PartialEq, Eq, Structural)]
pub enum Operator {
    Addition,
    Subtraction,
    Multiplication,
    Division,
    Exponentiation,
}

/// A unary function that a formula may apply to an argument.
#[derive(Clone, Copy, Debug, PartialEq, Eq, Structural)]
pub enum Function {
    Cos,
    Sin,
    Ln,
    Sqrt,
    Tan,
    Step,
    Exp,
}

/// What can go wrong while reading or evaluating a formula.
#[derive(Clone, Copy, Debug, PartialEq, Eq, Structural)]
pub enum FormulaError {
    /// A number literal whose exponent has no digits.
    ParseError,
    /// A character that starts no token.
    InvalidCharacter,
    UnmatchedBrackets,
    TrailingOperator,
    MissingOperand,
    MissingVariable,
    FunctionSyntax,
    DivisionByZero,
}

pub open spec fn error_text(e: FormulaError) -> Seq<char> {
    match e {
        FormulaError::ParseError => "Parsing error"@,
        FormulaError::InvalidCharacter => "Invalid character detected"@,
        FormulaError::UnmatchedBrackets => "Unmatched brackets"@,
        FormulaError::TrailingOperator => "Trailing operator"@,
        FormulaError::MissingOperand => "Value or variable expected"@,
        FormulaError::MissingVariable => "Missing value for variable"@,
        FormulaError::FunctionSyntax => "Expected function call"@,
        FormulaError::DivisionByZero => "Division by zero"@,
    }
}

impl FormulaError {
    /// A sentence for a person reading the error.
    pub fn message(&self) -> (r: &'static str)
        ensures
            r@ == error_text(*self),
    {
        match self {
            FormulaError::ParseError => "Parsing error",
            FormulaError::InvalidCharacter => "Invalid character detected",
            FormulaError::UnmatchedBrackets => "Unmatched brackets",
            FormulaError::TrailingOperator => "Trailing operator",
            FormulaError::MissingOperand => "Value or variable expected",
            FormulaError::MissingVariable => "Missing value for variable",
            FormulaError::FunctionSyntax => "Expected function call",
            FormulaError::DivisionByZero => "Division by zero",
        }
    }
}

/// The mathematical content of a token: a number literal is its text.
pub enum Lexeme {
    Value(Seq<char>),
    Variable(char),
    Operator(Operator),
    Function(Function),
    OpeningBracket,
    ClosingBracket,
    Whitespace,
}

/// A token of a formula; a number literal keeps its decimal text.
#[derive(Debug, PartialEq)]
pub enum Token {
    Value(Vec<char>),
    Variable(char),
    Operator(Operator),
    Function(Function),
    OpeningBracket,
    ClosingBracket,
    Whitespace,
}

impl View for Token {
    type V = Lexeme;

    open spec fn view(&self) -> Lexeme {
        match self {
            Token::Value(text) => Lexeme::Value(text@),
            Token::Variable(c) => Lexeme::Variable(*c),
            Token::Operator(op) => Lexeme::Operator(*op),
            Token::Function(f) => Lexeme::Function(*f),
            Token::OpeningBracket => Lexeme::OpeningBracket,
            Token::ClosingBracket => Lexeme::ClosingBracket,
            Token::Whitespace => Lexeme::Whitespace,
        }
    }
}


pub(crate) fn copy_text(text: &Vec<char>) -> (r: Vec<char>)
    ensures
        r@ == text@,
{
    let mut out: Vec<char> = Vec::new();
    let mut k: usize = 0;
    while k < text.len()
        invariant
            k <= text.len(),
            out@ == text@.subrange(0, k as int),
        decreases text.len() - k,
    {
        out.push(text[k]);
        k = k + 1;
        assert(out@ =~= text@.subrange(0, k as int));
    }
    assert(text@.subrange(0, k as int) =~= text@);
    out
}

impl Token {
    /// A token equal to this one.
    pub fn duplicate(&self) -> (r: Token)
        ensures
            r@ == self@,
    {
        match self {
            Token::Value(text) => Token::Value(copy_text(text)),
            Token::Variable(c) => Token::Variable(*c),
            Token::Operator(op) => Token::Operator(*op),
            Token::Function(f) => Token::Function(*f),
            Token::OpeningBracket => Token::OpeningBracket,
            Token::ClosingBracket => Token::ClosingBracket,
            Token::Whitespace => Token::Whitespace,
        }
    }
}

} // verus!
