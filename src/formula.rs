use vstd::prelude::*;
use vstd::string::{StrSliceExecFns, StringExecFns};

use crate::implicit::{implicit, implicit_multiplication, lemma_implicit_trailing};
use crate::lexer::{lex, lexemes, tokenize};
use crate::parser::{lemma_parse_trailing, operation, parse_scope, parse_sum, Expr, Node};
use crate::scope::{
    balanced,
    build_scopes,
    last_token,
    lemma_group_balanced,
    lemma_group_last,
    scopes,
    Scoped,
};
use crate::token::{error_text, FormulaError, Lexeme, Operator};

verus! {

/// What a formula's text means: its tokens, grouped by brackets, with
/// implicit multiplications made explicit, read as a sum.
pub open spec fn parse_formula(s: Seq<char>) -> Result<Expr, FormulaError> {
    match lex(s) {
        Err(e) => Err(e),
        Ok(t) => match scopes(t) {
            Err(e) => Err(e),
            Ok(g) => parse_sum(implicit(g), 0, implicit(g).len() as int),
        },
    }
}

/// Unmatched brackets: a formula whose tokens are read but whose brackets
/// do not pair up is rejected with `UnmatchedBrackets`; when they do pair up,
/// grouping by brackets succeeds.
pub proof fn law_unmatched_brackets(s: Seq<char>)
    requires
        lex(s) is Ok,
    ensures
        ({
            let t = lex(s)->Ok_0;
            &&& !balanced(t, 0, t.len() as int) ==> parse_formula(s) == Err::<Expr, FormulaError>(
                FormulaError::UnmatchedBrackets,
            )
            &&& balanced(t, 0, t.len() as int) ==> scopes(t) is Ok
        }),
{
    let t = lex(s)->Ok_0;
    lemma_group_balanced(t, 0, t.len() as int);
}

/// Trailing operators: a formula whose brackets pair up and whose last
/// token, blanks aside, is an operator is rejected with `TrailingOperator`.
pub proof fn law_trailing_operator(s: Seq<char>)
    requires
        lex(s) is Ok,
        balanced(lex(s)->Ok_0, 0, lex(s)->Ok_0.len() as int),
        last_token(lex(s)->Ok_0, 0, lex(s)->Ok_0.len() as int) matches Some(Lexeme::Operator(_)),
    ensures
        parse_formula(s) == Err::<Expr, FormulaError>(FormulaError::TrailingOperator),
{
    let t = lex(s)->Ok_0;
    let x = last_token(t, 0, t.len() as int)->Some_0;
    lemma_group_balanced(t, 0, t.len() as int);
    lemma_group_last(t, 0, t.len() as int, x);
    let g = scopes(t)->Ok_0;
    lemma_implicit_trailing(g, Scoped::Token(x));
    lemma_parse_trailing(implicit(g));
}

/// The decimal text of Euler's number.
pub open spec fn euler_text() -> Seq<char> {
    seq!['2', '.', '7', '1', '8', '2', '8', '1', '8', '2', '8', '4', '5', '9', '0', '4', '5']
}

/// The tree of `e^(i·(k·x))` for the wave number with decimal text `k`.
pub open spec fn phase_expr(k: Seq<char>) -> Expr {
    Expr::Operation(
        Operator::Exponentiation,
        Box::new(Expr::Value(euler_text())),
        Box::new(
            Expr::Operation(
                Operator::Multiplication,
                Box::new(Expr::Variable('i')),
                Box::new(
                    Expr::Operation(
                        Operator::Multiplication,
                        Box::new(Expr::Value(k)),
                        Box::new(Expr::Variable('x')),
                    ),
                ),
            ),
        ),
    )
}

/// The characters of `s`.
pub fn chars_of(s: &str) -> (r: Vec<char>)
    ensures
        r@ == s@,
{
    let n = s.unicode_len();
    let mut out: Vec<char> = Vec::new();
    let mut i: usize = 0;
    while i < n
        invariant
            n == s@.len(),
            i <= n,
            out@ == s@.subrange(0, i as int),
        decreases n - i,
    {
        out.push(s.get_char(i));
        i = i + 1;
        assert(out@ =~= s@.subrange(0, i as int));
    }
    assert(out@ =~= s@);
    out
}

/// A parsed formula.
#[derive(Debug, PartialEq)]
pub struct Formula {
    root: Node,
}

impl View for Formula {
    type V = Expr;

    closed spec fn view(&self) -> Expr {
        self.root@
    }
}

impl Formula {
    /// Parses a formula, reporting the kind of error when it is malformed.
    pub fn parse(formula: &str) -> (r: Result<Formula, FormulaError>)
        ensures
            match parse_formula(formula@) {
                Ok(x) => r matches Ok(f) && f@ == x,
                Err(e) => r matches Err(e2) && e2 == e,
            },
    {
        let text = chars_of(formula);
        let tokens = match tokenize(&text) {
            Ok(t) => t,
            Err(e) => {
                return Err(e);
            },
        };
        let scope = match build_scopes(&tokens) {
            Ok(g) => g,
            Err(e) => {
                return Err(e);
            },
        };
        let rewritten = implicit_multiplication(&scope);
        proof {
            crate::scope::lemma_views_index(rewritten@, rewritten@.len());
        }
        match parse_scope(&rewritten) {
            Ok(root) => Ok(Formula { root }),
            Err(e) => Err(e),
        }
    }

    /// Parses a formula; the error is a sentence that says what is wrong.
    pub fn new(formula: &str) -> (r: Result<Formula, String>)
        ensures
            match parse_formula(formula@) {
                Ok(x) => r matches Ok(f) && f@ == x,
                Err(e) => r matches Err(m) && m@ == error_text(e),
            },
    {
        match Formula::parse(formula) {
            Ok(f) => Ok(f),
            Err(e) => Err(String::from_str(e.message())),
        }
    }

    /// The phase factor `e^(i·(k·x))`, built without parsing; `k` is the
    /// decimal text of the wave number.
    pub fn complex_phase(k: &str) -> (r: Formula)
        ensures
            r@ == phase_expr(k@),
    {
        let e = vec!['2', '.', '7', '1', '8', '2', '8', '1', '8', '2', '8', '4', '5', '9', '0', '4', '5'];
        assert(e@ =~= euler_text());
        let value = Node::Value(chars_of(k));
        let x = Node::Variable('x');
        let i = Node::Variable('i');
        assert(value@ == Expr::Value(k@));
        assert(x@ == Expr::Variable('x'));
        assert(i@ == Expr::Variable('i'));
        let product = operation(Operator::Multiplication, value, x);
        let exponent = operation(Operator::Multiplication, i, product);
        let base = Node::Value(e);
        assert(base@ == Expr::Value(euler_text()));
        Formula { root: operation(Operator::Exponentiation, base, exponent) }
    }

    /// The formula `self op other`.
    pub fn adjoin(self, other: Formula, operator: Operator) -> (r: Formula)
        ensures
            r@ == Expr::Operation(operator, Box::new(self@), Box::new(other@)),
    {
        Formula { root: operation(operator, self.root, other.root) }
    }

    /// The root of the tree.
    pub fn root(&self) -> (r: &Node)
        ensures
            r@ == self@,
    {
        &self.root
    }
}

/// The text shown beside a formula: empty when it parses, else what is wrong.
pub fn formula_error(formula: &str) -> (r: String)
    ensures
        r@ == match parse_formula(formula@) {
            Ok(_) => Seq::<char>::empty(),
            Err(e) => error_text(e),
        },
{
    match Formula::parse(formula) {
        Ok(_) => String::new(),
        Err(e) => String::from_str(e.message()),
    }
}

/// The formula that is plotted for `formula`: the formula itself, or the
/// constant zero when it does not parse.
pub fn formula_or_zero(formula: &str) -> (r: Formula)
    ensures
        r@ == match parse_formula(formula@) {
            Ok(x) => x,
            Err(_) => Expr::Value(seq!['0']),
        },
{
    match Formula::parse(formula) {
        Ok(f) => f,
        Err(_) => {
            let text = vec!['0'];
            assert(text@ =~= seq!['0']);
            Formula { root: Node::Value(text) }
        },
    }
}

/// A greeting for `name`.
pub fn greet(name: &str) -> (r: String)
    ensures
        r@ == "Hello, "@ + name@ + "!"@,
{
    String::from_str("Hello, ").concat(name).concat("!")
}

} // verus!
