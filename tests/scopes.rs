use quantum_sandbox::implicit::implicit_multiplication;
use quantum_sandbox::lexer::tokenize;
use quantum_sandbox::scope::build_scopes;
use quantum_sandbox::{FormulaError, Operator, ScopeElement, Token};

fn scopes_of(text: &str) -> Result<Vec<ScopeElement>, FormulaError> {
    let chars: Vec<char> = text.chars().collect();
    build_scopes(&tokenize(&chars).unwrap())
}

fn var(c: char) -> ScopeElement {
    ScopeElement::Token(Token::Variable(c))
}

fn num(text: &str) -> ScopeElement {
    ScopeElement::Token(Token::Value(text.chars().collect()))
}

fn times() -> ScopeElement {
    ScopeElement::Token(Token::Operator(Operator::Multiplication))
}

#[test]
fn brackets_become_nested_scopes() {
    assert_eq!(
        scopes_of("(x)y").unwrap(),
        vec![ScopeElement::InnerScope(vec![var('x')]), var('y')]
    );
    assert_eq!(
        scopes_of("((x)(y))").unwrap(),
        vec![ScopeElement::InnerScope(vec![
            ScopeElement::InnerScope(vec![var('x')]),
            ScopeElement::InnerScope(vec![var('y')]),
        ])]
    );
}

#[test]
fn whitespace_survives_grouping() {
    assert_eq!(
        scopes_of("x y").unwrap(),
        vec![var('x'), ScopeElement::Token(Token::Whitespace), var('y')]
    );
}

#[test]
fn unclosed_bracket_is_unmatched() {
    assert_eq!(scopes_of("(x"), Err(FormulaError::UnmatchedBrackets));
    assert_eq!(scopes_of("((x)"), Err(FormulaError::UnmatchedBrackets));
}

#[test]
fn extra_closing_bracket_is_unmatched() {
    assert_eq!(scopes_of("x)"), Err(FormulaError::UnmatchedBrackets));
    assert_eq!(scopes_of(")("), Err(FormulaError::UnmatchedBrackets));
}

#[test]
fn empty_brackets_give_an_empty_scope() {
    assert_eq!(
        scopes_of("()").unwrap(),
        vec![ScopeElement::InnerScope(vec![])]
    );
}

#[test]
fn adjacent_atoms_are_fused() {
    let rewritten = implicit_multiplication(&scopes_of("2xy").unwrap());
    let two_x = ScopeElement::InnerScope(vec![num("2"), times(), var('x')]);
    assert_eq!(
        rewritten,
        vec![ScopeElement::InnerScope(vec![two_x, times(), var('y')])]
    );
}

#[test]
fn power_after_atoms_keeps_product_flat() {
    let rewritten = implicit_multiplication(&scopes_of("2x^3").unwrap());
    assert_eq!(
        rewritten,
        vec![
            num("2"),
            times(),
            var('x'),
            ScopeElement::Token(Token::Operator(Operator::Exponentiation)),
            num("3"),
        ]
    );
}

#[test]
fn power_is_seen_past_whitespace() {
    let rewritten = implicit_multiplication(&scopes_of("2x ^3").unwrap());
    assert_eq!(
        rewritten,
        vec![
            num("2"),
            times(),
            var('x'),
            ScopeElement::Token(Token::Operator(Operator::Exponentiation)),
            num("3"),
        ]
    );
}

#[test]
fn top_level_whitespace_is_dropped() {
    let rewritten = implicit_multiplication(&scopes_of(" x + y ").unwrap());
    assert_eq!(
        rewritten,
        vec![
            var('x'),
            ScopeElement::Token(Token::Operator(Operator::Addition)),
            var('y'),
        ]
    );
}

#[test]
fn blank_between_atoms_does_not_multiply() {
    let rewritten = implicit_multiplication(&scopes_of("x y").unwrap());
    assert_eq!(rewritten, vec![var('x'), var('y')]);
}

#[test]
fn nested_scopes_are_not_rewritten() {
    let rewritten = implicit_multiplication(&scopes_of("(ab)").unwrap());
    assert_eq!(
        rewritten,
        vec![ScopeElement::InnerScope(vec![var('a'), var('b')])]
    );
}
