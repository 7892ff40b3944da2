use quantum_sandbox::lexer::{scan_token, tokenize};
use quantum_sandbox::{Function, FormulaError, Operator, Token};

fn lex(text: &str) -> Result<Vec<Token>, FormulaError> {
    let chars: Vec<char> = text.chars().collect();
    tokenize(&chars)
}

fn value(text: &str) -> Token {
    Token::Value(text.chars().collect())
}

#[test]
fn lexes_number_variable_and_power() {
    assert_eq!(
        lex("2x^3").unwrap(),
        vec![
            value("2"),
            Token::Variable('x'),
            Token::Operator(Operator::Exponentiation),
            value("3"),
        ]
    );
}

#[test]
fn lexes_function_keywords_and_brackets() {
    assert_eq!(
        lex("sin(x)").unwrap(),
        vec![
            Token::Function(Function::Sin),
            Token::OpeningBracket,
            Token::Variable('x'),
            Token::ClosingBracket,
        ]
    );
    assert_eq!(lex("sen").unwrap(), vec![Token::Function(Function::Sin)]);
    assert_eq!(lex("log").unwrap(), vec![Token::Function(Function::Ln)]);
    assert_eq!(lex("ln").unwrap(), vec![Token::Function(Function::Ln)]);
    assert_eq!(lex("sqrt").unwrap(), vec![Token::Function(Function::Sqrt)]);
    assert_eq!(lex("tan").unwrap(), vec![Token::Function(Function::Tan)]);
    assert_eq!(lex("exp").unwrap(), vec![Token::Function(Function::Exp)]);
    assert_eq!(lex("u").unwrap(), vec![Token::Function(Function::Step)]);
}

#[test]
fn keyword_is_taken_before_letters() {
    assert_eq!(
        lex("cosh").unwrap(),
        vec![Token::Function(Function::Cos), Token::Variable('h')]
    );
    assert_eq!(
        lex("si").unwrap(),
        vec![Token::Variable('s'), Token::Variable('i')]
    );
}

#[test]
fn lexes_all_operators() {
    assert_eq!(
        lex("+-*/^").unwrap(),
        vec![
            Token::Operator(Operator::Addition),
            Token::Operator(Operator::Subtraction),
            Token::Operator(Operator::Multiplication),
            Token::Operator(Operator::Division),
            Token::Operator(Operator::Exponentiation),
        ]
    );
}

#[test]
fn lexes_number_literal_forms() {
    assert_eq!(lex("1.5e-3").unwrap(), vec![value("1.5e-3")]);
    assert_eq!(lex("2E+10").unwrap(), vec![value("2E+10")]);
    assert_eq!(lex(".5").unwrap(), vec![value(".5")]);
    assert_eq!(lex("1.").unwrap(), vec![value("1.")]);
    assert_eq!(lex("12.25").unwrap(), vec![value("12.25")]);
    assert_eq!(lex("2.5.3").unwrap(), vec![value("2.5"), value(".3")]);
}

#[test]
fn sign_is_an_operator_not_part_of_a_number() {
    assert_eq!(
        lex("-1").unwrap(),
        vec![Token::Operator(Operator::Subtraction), value("1")]
    );
}

#[test]
fn exponent_without_digits_is_a_parse_error() {
    assert_eq!(lex("2e"), Err(FormulaError::ParseError));
    assert_eq!(lex("2ex"), Err(FormulaError::ParseError));
    assert_eq!(lex("x+3e-"), Err(FormulaError::ParseError));
}

#[test]
fn unknown_character_is_invalid() {
    assert_eq!(lex("x # y"), Err(FormulaError::InvalidCharacter));
    assert_eq!(lex("x\ny"), Err(FormulaError::InvalidCharacter));
    assert_eq!(lex("."), Err(FormulaError::InvalidCharacter));
}

#[test]
fn blanks_form_one_token() {
    assert_eq!(
        lex("x \t y").unwrap(),
        vec![Token::Variable('x'), Token::Whitespace, Token::Variable('y')]
    );
}

#[test]
fn non_ascii_letter_is_a_variable() {
    assert_eq!(lex("π").unwrap(), vec![Token::Variable('π')]);
    assert_eq!(lex("2é").unwrap(), vec![value("2"), Token::Variable('é')]);
}

#[test]
fn empty_text_has_no_tokens() {
    assert_eq!(lex("").unwrap(), vec![]);
}

fn scan(text: &str, at: usize, letter: bool) -> Result<Option<(Token, usize)>, FormulaError> {
    let chars: Vec<char> = text.chars().collect();
    scan_token(&chars, at, letter)
}

#[test]
fn scan_reads_a_letter_as_a_variable() {
    assert_eq!(scan("x2", 0, true), Ok(Some((Token::Variable('x'), 1))));
    assert_eq!(scan("ab", 1, true), Ok(Some((Token::Variable('b'), 1))));
}

#[test]
fn scan_reads_a_non_letter_by_the_grammar() {
    assert_eq!(scan("x2", 0, false), Ok(None));
    assert_eq!(scan("x25.5e1+", 1, false), Ok(Some((value("25.5e1"), 6))));
    assert_eq!(scan("  \t1", 0, false), Ok(Some((Token::Whitespace, 3))));
    assert_eq!(scan("3e+", 0, false), Err(FormulaError::ParseError));
}

#[test]
fn scan_prefers_keywords_brackets_and_operators_to_letters() {
    assert_eq!(scan("sqrt(x)", 0, true), Ok(Some((Token::Function(Function::Sqrt), 4))));
    assert_eq!(scan("(x)", 0, true), Ok(Some((Token::OpeningBracket, 1))));
    assert_eq!(scan("x^2", 1, true), Ok(Some((Token::Operator(Operator::Exponentiation), 1))));
}

#[test]
fn scan_outside_the_text_finds_nothing() {
    assert_eq!(scan("x", 1, true), Ok(None));
    assert_eq!(scan("", 0, false), Ok(None));
}
