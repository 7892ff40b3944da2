use vstd::prelude::*;

use crate::implicit::{implicit, implicit_from, is_operator, power_follows, product, times};
use crate::scope::{lemma_views_index, scoped_views, ScopeElement, Scoped};
use crate::token::{copy_text, Function, FormulaError, Lexeme, Operator, Token};

verus! {

broadcast use vstd::std_specs::vec::group_vec_axioms, vstd::seq::group_seq_axioms;

/// A formula as a mathematical tree; a number literal is its decimal text.
pub enum Expr {
    Value(Seq<char>),
    Variable(char),
    Operation(Operator, Box<Expr>, Box<Expr>),
    Call(Function, Box<Expr>),
}

/// A node of a formula tree; each node owns its children.
#[derive(Debug, PartialEq)]
pub enum Node {
    /// A number literal, kept as its decimal text.
    Value(Vec<char>),
    Variable(char),
    Operation { operator: Operator, left: Box<Node>, right: Box<Node> },
    Function { function: Function, argument: Box<Node> },
}

impl Node {
    /// The tree that this node stands for.
    pub open spec fn expr(&self) -> Expr
        decreases self,
    {
        match self {
            Node::Value(text) => Expr::Value(text@),
            Node::Variable(c) => Expr::Variable(*c),
            Node::Operation { operator, left, right } => Expr::Operation(
                *operator,
                Box::new(left.expr()),
                Box::new(right.expr()),
            ),
            Node::Function { function, argument } => Expr::Call(*function, Box::new(argument.expr())),
        }
    }
}

impl View for Node {
    type V = Expr;

    open spec fn view(&self) -> Expr {
        self.expr()
    }
}

pub open spec fn sum_op(e: Scoped) -> Option<Operator> {
    match e {
        Scoped::Token(Lexeme::Operator(Operator::Addition)) => Some(Operator::Addition),
        Scoped::Token(Lexeme::Operator(Operator::Subtraction)) => Some(Operator::Subtraction),
        _ => None,
    }
}

pub open spec fn product_op(e: Scoped) -> Option<Operator> {
    match e {
        Scoped::Token(Lexeme::Operator(Operator::Multiplication)) => Some(Operator::Multiplication),
        Scoped::Token(Lexeme::Operator(Operator::Division)) => Some(Operator::Division),
        _ => None,
    }
}

pub open spec fn is_power(e: Scoped) -> bool {
    e == Scoped::Token(Lexeme::Operator(Operator::Exponentiation))
}

pub open spec fn zero() -> Expr {
    Expr::Value(seq!['0'])
}

pub proof fn lemma_scope_decreases(s: Seq<Scoped>, i: int)
    requires
        0 <= i < s.len(),
        s[i] is Scope,
    ensures
        decreases_to!(s => s[i]->Scope_0),
{
    assert(decreases_to!(s => s[i]));
}

/// `s[lo..hi]` as a sum: split at the last `+` or `-` of the range, whose
/// right part is a product and whose left part is again a sum (zero when
/// empty, for a leading sign); `j` scans down from `hi` for that operator.
pub open spec fn sum_scan(s: Seq<Scoped>, lo: int, j: int, hi: int) -> Result<Expr, FormulaError>
    decreases s, hi - lo, 3int, j - lo,
{
    if j <= lo || j > hi {
        if lo >= hi {
            Err(FormulaError::TrailingOperator)
        } else {
            product_scan(s, lo, hi, hi)
        }
    } else {
        match sum_op(s[j - 1]) {
            Some(op) => if j == hi {
                Err(FormulaError::TrailingOperator)
            } else {
                match product_scan(s, j, hi, hi) {
                    Err(e) => Err(e),
                    Ok(right) => if j - 1 == lo {
                        Ok(Expr::Operation(op, Box::new(zero()), Box::new(right)))
                    } else {
                        match sum_scan(s, lo, j - 1, j - 1) {
                            Err(e) => Err(e),
                            Ok(left) => Ok(Expr::Operation(op, Box::new(left), Box::new(right))),
                        }
                    },
                }
            },
            None => sum_scan(s, lo, j - 1, hi),
        }
    }
}

pub open spec fn parse_sum(s: Seq<Scoped>, lo: int, hi: int) -> Result<Expr, FormulaError>
{
    sum_scan(s, lo, hi, hi)
}

/// `s[lo..hi]` as a product: split at the last `*` or `/`; both parts must
/// be present.
pub open spec fn product_scan(s: Seq<Scoped>, lo: int, j: int, hi: int) -> Result<
    Expr,
    FormulaError,
>
    decreases s, hi - lo, 2int, j - lo,
{
    if j <= lo || j > hi {
        if lo >= hi {
            Err(FormulaError::TrailingOperator)
        } else {
            power_scan(s, lo, lo, hi)
        }
    } else {
        match product_op(s[j - 1]) {
            Some(op) => if j == hi {
                Err(FormulaError::TrailingOperator)
            } else {
                match power_scan(s, j, j, hi) {
                    Err(e) => Err(e),
                    Ok(right) => if j - 1 == lo {
                        Err(FormulaError::TrailingOperator)
                    } else {
                        match product_scan(s, lo, j - 1, j - 1) {
                            Err(e) => Err(e),
                            Ok(left) => Ok(Expr::Operation(op, Box::new(left), Box::new(right))),
                        }
                    },
                }
            },
            None => product_scan(s, lo, j - 1, hi),
        }
    }
}


/// `s[lo..hi]` as a power: split at the first `^`, so that `a^b^c` is
/// `a^(b^c)`; the base is a leaf, the exponent again a power, and both must
/// be present. The exponent is read before the base.
pub open spec fn power_scan(s: Seq<Scoped>, lo: int, j: int, hi: int) -> Result<Expr, FormulaError>
    decreases s, hi - lo, 1int, hi - j,
{
    if j >= hi || j < lo {
        parse_leaf(s, lo, hi)
    } else if is_power(s[j]) {
        if j + 1 == hi {
            Err(FormulaError::TrailingOperator)
        } else {
            match power_scan(s, j + 1, j + 1, hi) {
                Err(e) => Err(e),
                Ok(exponent) => if j == lo {
                    Err(FormulaError::TrailingOperator)
                } else {
                    match parse_leaf(s, lo, j) {
                        Err(e) => Err(e),
                        Ok(base) => Ok(
                            Expr::Operation(
                                Operator::Exponentiation,
                                Box::new(base),
                                Box::new(exponent),
                            ),
                        ),
                    }
                },
            }
        }
    } else {
        power_scan(s, lo, j + 1, hi)
    }
}


/// `s[lo..hi]` as a leaf: an argument (a value, a variable or a nested scope,
/// read as a sum) at the end, after function names, the one nearest the
/// argument applied first.
pub open spec fn parse_leaf(s: Seq<Scoped>, lo: int, hi: int) -> Result<Expr, FormulaError>
    decreases s, hi - lo, 0int, 0int,
{
    if hi <= lo || lo < 0 || hi > s.len() {
        Err(FormulaError::MissingOperand)
    } else {
        match s[hi - 1] {
            Scoped::Scope(inner) => {
                proof {
                    lemma_scope_decreases(s, hi - 1);
                }
                match sum_scan(inner, 0, inner.len() as int, inner.len() as int) {
                    Err(e) => Err(e),
                    Ok(arg) => apply_functions(s, lo, hi - 1, arg),
                }
            },
            Scoped::Token(Lexeme::Value(text)) => apply_functions(s, lo, hi - 1, Expr::Value(text)),
            Scoped::Token(Lexeme::Variable(c)) => apply_functions(s, lo, hi - 1, Expr::Variable(c)),
            _ => Err(FormulaError::FunctionSyntax),
        }
    }
}

/// `arg` under the functions named by `s[lo..j]`, the last one innermost;
/// anything else there is `FunctionSyntax`.
pub open spec fn apply_functions(s: Seq<Scoped>, lo: int, j: int, arg: Expr) -> Result<
    Expr,
    FormulaError,
>
    decreases j - lo,
{
    if j <= lo {
        Ok(arg)
    } else {
        match s[j - 1] {
            Scoped::Token(Lexeme::Function(f)) => apply_functions(
                s,
                lo,
                j - 1,
                Expr::Call(f, Box::new(arg)),
            ),
            _ => Err(FormulaError::FunctionSyntax),
        }
    }
}


/// `r` is the node of the tree of `spec`, or the error of `spec`.
pub open spec fn parsed_as(r: Result<Node, FormulaError>, spec: Result<Expr, FormulaError>) -> bool {
    match spec {
        Ok(x) => r matches Ok(n) && n@ == x,
        Err(e) => r matches Err(e2) && e2 == e,
    }
}

/// The views of `s` and of its elements agree.
pub open spec fn views_of(s: &Vec<ScopeElement>, sv: Seq<Scoped>) -> bool {
    &&& sv == scoped_views(s@)
    &&& sv.len() == s@.len()
    &&& forall|i: int| 0 <= i < sv.len() ==> #[trigger] sv[i] == s@[i]@
}

proof fn lemma_views_of(s: &Vec<ScopeElement>)
    ensures
        views_of(s, scoped_views(s@)),
{
    lemma_views_index(s@, s@.len());
}

proof fn lemma_inner_decreases(v: Vec<ScopeElement>, i: int)
    requires
        0 <= i < v.len(),
        v[i] is InnerScope,
    ensures
        decreases_to!(v => v[i]->InnerScope_0),
{
    assert(decreases_to!(v => v[i]));
}

fn sum_op_at(e: &ScopeElement) -> (r: Option<Operator>)
    ensures
        r == sum_op(e@),
{
    match e {
        ScopeElement::Token(Token::Operator(Operator::Addition)) => Some(Operator::Addition),
        ScopeElement::Token(Token::Operator(Operator::Subtraction)) => Some(Operator::Subtraction),
        _ => None,
    }
}

fn product_op_at(e: &ScopeElement) -> (r: Option<Operator>)
    ensures
        r == product_op(e@),
{
    match e {
        ScopeElement::Token(Token::Operator(Operator::Multiplication)) => Some(
            Operator::Multiplication,
        ),
        ScopeElement::Token(Token::Operator(Operator::Division)) => Some(Operator::Division),
        _ => None,
    }
}

fn is_power_at(e: &ScopeElement) -> (r: bool)
    ensures
        r == is_power(e@),
{
    match e {
        ScopeElement::Token(Token::Operator(Operator::Exponentiation)) => true,
        _ => false,
    }
}

pub(crate) fn operation(operator: Operator, left: Node, right: Node) -> (r: Node)
    ensures
        r@ == Expr::Operation(operator, Box::new(left@), Box::new(right@)),
{
    Node::Operation { operator, left: Box::new(left), right: Box::new(right) }
}

fn sum_range(s: &Vec<ScopeElement>, lo: usize, hi: usize) -> (r: Result<Node, FormulaError>)
    requires
        lo <= hi <= s.len(),
    ensures
        parsed_as(r, sum_scan(scoped_views(s@), lo as int, hi as int, hi as int)),
    decreases s, hi - lo, 3int,
{
    let ghost sv = scoped_views(s@);
    proof {
        lemma_views_of(s);
    }
    let mut j = hi;
    while j > lo && sum_op_at(&s[j - 1]).is_none()
        invariant
            lo <= j <= hi <= s.len(),
            views_of(s, sv),
            sum_scan(sv, lo as int, hi as int, hi as int) == sum_scan(sv, lo as int, j as int, hi as int),
        decreases j,
    {
        j = j - 1;
    }
    if j == lo {
        if lo >= hi {
            return Err(FormulaError::TrailingOperator);
        }
        return product_range(s, lo, hi);
    }
    let op = match sum_op_at(&s[j - 1]) {
        Some(op) => op,
        None => {
            return Err(FormulaError::TrailingOperator);
        },
    };
    if j == hi {
        return Err(FormulaError::TrailingOperator);
    }
    let right = match product_range(s, j, hi) {
        Ok(n) => n,
        Err(e) => {
            return Err(e);
        },
    };
    if j - 1 == lo {
        let text = vec!['0'];
        assert(text@ =~= seq!['0']);
        let nought = Node::Value(text);
        return Ok(operation(op, nought, right));
    }
    match sum_range(s, lo, j - 1) {
        Ok(left) => Ok(operation(op, left, right)),
        Err(e) => Err(e),
    }
}

fn product_range(s: &Vec<ScopeElement>, lo: usize, hi: usize) -> (r: Result<Node, FormulaError>)
    requires
        lo <= hi <= s.len(),
    ensures
        parsed_as(r, product_scan(scoped_views(s@), lo as int, hi as int, hi as int)),
    decreases s, hi - lo, 2int,
{
    let ghost sv = scoped_views(s@);
    proof {
        lemma_views_of(s);
    }
    let mut j = hi;
    while j > lo && product_op_at(&s[j - 1]).is_none()
        invariant
            lo <= j <= hi <= s.len(),
            views_of(s, sv),
            product_scan(sv, lo as int, hi as int, hi as int) == product_scan(
                sv,
                lo as int,
                j as int,
                hi as int,
            ),
        decreases j,
    {
        j = j - 1;
    }
    if j == lo {
        if lo >= hi {
            return Err(FormulaError::TrailingOperator);
        }
        return power_range(s, lo, hi);
    }
    let op = match product_op_at(&s[j - 1]) {
        Some(op) => op,
        None => {
            return Err(FormulaError::TrailingOperator);
        },
    };
    if j == hi {
        return Err(FormulaError::TrailingOperator);
    }
    let right = match power_range(s, j, hi) {
        Ok(n) => n,
        Err(e) => {
            return Err(e);
        },
    };
    if j - 1 == lo {
        return Err(FormulaError::TrailingOperator);
    }
    match product_range(s, lo, j - 1) {
        Ok(left) => Ok(operation(op, left, right)),
        Err(e) => Err(e),
    }
}

fn power_range(s: &Vec<ScopeElement>, lo: usize, hi: usize) -> (r: Result<Node, FormulaError>)
    requires
        lo <= hi <= s.len(),
    ensures
        parsed_as(r, power_scan(scoped_views(s@), lo as int, lo as int, hi as int)),
    decreases s, hi - lo, 1int,
{
    let ghost sv = scoped_views(s@);
    proof {
        lemma_views_of(s);
    }
    let mut j = lo;
    while j < hi && !is_power_at(&s[j])
        invariant
            lo <= j <= hi <= s.len(),
            views_of(s, sv),
            power_scan(sv, lo as int, lo as int, hi as int) == power_scan(
                sv,
                lo as int,
                j as int,
                hi as int,
            ),
        decreases hi - j,
    {
        j = j + 1;
    }
    if j == hi {
        return leaf_range(s, lo, hi);
    }
    if j + 1 == hi {
        return Err(FormulaError::TrailingOperator);
    }
    let exponent = match power_range(s, j + 1, hi) {
        Ok(n) => n,
        Err(e) => {
            return Err(e);
        },
    };
    if j == lo {
        return Err(FormulaError::TrailingOperator);
    }
    match leaf_range(s, lo, j) {
        Ok(base) => Ok(operation(Operator::Exponentiation, base, exponent)),
        Err(e) => Err(e),
    }
}

fn leaf_range(s: &Vec<ScopeElement>, lo: usize, hi: usize) -> (r: Result<Node, FormulaError>)
    requires
        lo <= hi <= s.len(),
    ensures
        parsed_as(r, parse_leaf(scoped_views(s@), lo as int, hi as int)),
    decreases s, hi - lo, 0int,
{
    let ghost sv = scoped_views(s@);
    proof {
        lemma_views_of(s);
    }
    if hi == lo {
        return Err(FormulaError::MissingOperand);
    }
    let ghost last = sv[hi - 1];
    assert(last == s@[hi - 1]@);
    let argument = match &s[hi - 1] {
        ScopeElement::InnerScope(inner) => {
            proof {
                crate::scope::lemma_inner_view(*inner);
                lemma_inner_decreases(*s, hi - 1);
                assert(last == Scoped::Scope(scoped_views(inner@)));
                lemma_views_of(inner);
            }
            match sum_range(inner, 0, inner.len()) {
                Ok(n) => n,
                Err(e) => {
                    return Err(e);
                },
            }
        },
        ScopeElement::Token(Token::Value(text)) => {
            assert(last == Scoped::Token(Lexeme::Value(text@)));
            Node::Value(copy_text(text))
        },
        ScopeElement::Token(Token::Variable(c)) => {
            assert(last == Scoped::Token(Lexeme::Variable(*c)));
            Node::Variable(*c)
        },
        ScopeElement::Token(t) => {
            assert(last == Scoped::Token(t@));
            return Err(FormulaError::FunctionSyntax);
        },
    };
    let mut node = argument;
    let mut j = hi - 1;
    while j > lo
        invariant
            lo <= j < hi <= s.len(),
            views_of(s, sv),
            parse_leaf(sv, lo as int, hi as int) == apply_functions(
                sv,
                lo as int,
                j as int,
                node@,
            ),
        decreases j,
    {
        assert(sv[j - 1] == s@[j - 1]@);
        match &s[j - 1] {
            ScopeElement::Token(Token::Function(f)) => {
                assert(sv[j - 1] == Scoped::Token(Lexeme::Function(*f)));
                node = Node::Function { function: *f, argument: Box::new(node) };
            },
            ScopeElement::Token(t) => {
                assert(sv[j - 1] == Scoped::Token(t@));
                return Err(FormulaError::FunctionSyntax);
            },
            ScopeElement::InnerScope(inner) => {
                proof {
                    crate::scope::lemma_inner_view(*inner);
                }
                return Err(FormulaError::FunctionSyntax);
            },
        }
        j = j - 1;
    }
    Ok(node)
}

proof fn lemma_power_trailing(s: Seq<Scoped>, lo: int, j: int, hi: int)
    requires
        0 <= lo <= j < hi <= s.len(),
        is_power(s[hi - 1]),
    ensures
        power_scan(s, lo, j, hi) == Err::<Expr, FormulaError>(FormulaError::TrailingOperator),
    decreases hi - j,
{
    if is_power(s[j]) {
        if j + 1 < hi {
            lemma_power_trailing(s, j + 1, j + 1, hi);
        }
    } else {
        lemma_power_trailing(s, lo, j + 1, hi);
    }
}

proof fn lemma_product_trailing(s: Seq<Scoped>, lo: int, j: int, hi: int)
    requires
        0 <= lo <= j <= hi <= s.len(),
        lo < hi,
        is_operator(s[hi - 1]),
        sum_op(s[hi - 1]) is None,
        product_op(s[hi - 1]) is Some ==> j == hi,
    ensures
        product_scan(s, lo, j, hi) == Err::<Expr, FormulaError>(FormulaError::TrailingOperator),
    decreases j,
{
    if product_op(s[hi - 1]) is None {
        assert(is_power(s[hi - 1]));
    }
    if j <= lo {
        lemma_power_trailing(s, lo, lo, hi);
    } else if product_op(s[j - 1]) is Some {
        if j < hi {
            lemma_power_trailing(s, j, j, hi);
        }
    } else {
        lemma_product_trailing(s, lo, j - 1, hi);
    }
}

proof fn lemma_sum_trailing(s: Seq<Scoped>, lo: int, j: int, hi: int)
    requires
        0 <= lo <= j <= hi <= s.len(),
        lo < hi,
        is_operator(s[hi - 1]),
        sum_op(s[hi - 1]) is Some ==> j == hi,
    ensures
        sum_scan(s, lo, j, hi) == Err::<Expr, FormulaError>(FormulaError::TrailingOperator),
    decreases j,
{
    if j <= lo {
        lemma_product_trailing(s, lo, hi, hi);
    } else if sum_op(s[j - 1]) is Some {
        if j < hi {
            lemma_product_trailing(s, j, hi, hi);
        }
    } else {
        lemma_sum_trailing(s, lo, j - 1, hi);
    }
}

/// A scope whose last element is an operator is rejected with
/// `TrailingOperator`, whatever stands before it.
pub proof fn lemma_parse_trailing(s: Seq<Scoped>)
    requires
        s.len() > 0,
        is_operator(s[s.len() - 1]),
    ensures
        parse_sum(s, 0, s.len() as int) == Err::<Expr, FormulaError>(FormulaError::TrailingOperator),
{
    lemma_sum_trailing(s, 0, s.len() as int, s.len() as int);
}

/// The leaf that a value or variable token stands for.
pub open spec fn leaf_of(e: Scoped) -> Option<Expr> {
    match e {
        Scoped::Token(Lexeme::Value(text)) => Some(Expr::Value(text)),
        Scoped::Token(Lexeme::Variable(c)) => Some(Expr::Variable(c)),
        _ => None,
    }
}

pub open spec fn op_token(op: Operator) -> Scoped {
    Scoped::Token(Lexeme::Operator(op))
}

pub open spec fn op_expr(op: Operator, left: Expr, right: Expr) -> Expr {
    Expr::Operation(op, Box::new(left), Box::new(right))
}

pub open spec fn additive(op: Operator) -> bool {
    op == Operator::Addition || op == Operator::Subtraction
}

pub open spec fn multiplicative(op: Operator) -> bool {
    op == Operator::Multiplication || op == Operator::Division
}

proof fn lemma_single_leaf(s: Seq<Scoped>, lo: int)
    requires
        0 <= lo < s.len(),
        leaf_of(s[lo]) is Some,
    ensures
        parse_leaf(s, lo, lo + 1) == Ok::<Expr, FormulaError>(leaf_of(s[lo])->0),
        power_scan(s, lo, lo, lo + 1) == Ok::<Expr, FormulaError>(leaf_of(s[lo])->0),
        product_scan(s, lo, lo + 1, lo + 1) == Ok::<Expr, FormulaError>(leaf_of(s[lo])->0),
        sum_scan(s, lo, lo + 1, lo + 1) == Ok::<Expr, FormulaError>(leaf_of(s[lo])->0),
{
    assert(apply_functions(s, lo, lo, leaf_of(s[lo])->0) == Ok::<Expr, FormulaError>(
        leaf_of(s[lo])->0,
    ));
    assert(parse_leaf(s, lo, lo + 1) == Ok::<Expr, FormulaError>(leaf_of(s[lo])->0));
    assert(power_scan(s, lo, lo + 1, lo + 1) == parse_leaf(s, lo, lo + 1));
    assert(power_scan(s, lo, lo, lo + 1) == power_scan(s, lo, lo + 1, lo + 1));
    assert(product_scan(s, lo, lo, lo + 1) == power_scan(s, lo, lo, lo + 1));
    assert(product_scan(s, lo, lo + 1, lo + 1) == product_scan(s, lo, lo, lo + 1));
    assert(sum_scan(s, lo, lo, lo + 1) == product_scan(s, lo, lo + 1, lo + 1));
    assert(sum_scan(s, lo, lo + 1, lo + 1) == sum_scan(s, lo, lo, lo + 1));
}

/// Additive operators group to the left: `a p b q c` is `(a p b) q c` for
/// leaves `a`, `b`, `c` and `+`/`−` operators `p`, `q`.
pub proof fn law_sum_left_associative(a: Scoped, b: Scoped, c: Scoped, p: Operator, q: Operator)
    requires
        leaf_of(a) is Some,
        leaf_of(b) is Some,
        leaf_of(c) is Some,
        additive(p),
        additive(q),
    ensures
        parse_sum(seq![a, op_token(p), b, op_token(q), c], 0, 5) == Ok::<Expr, FormulaError>(
            op_expr(q, op_expr(p, leaf_of(a)->0, leaf_of(b)->0), leaf_of(c)->0),
        ),
{
    let s = seq![a, op_token(p), b, op_token(q), c];
    lemma_single_leaf(s, 0);
    lemma_single_leaf(s, 2);
    lemma_single_leaf(s, 4);
    assert(sum_scan(s, 0, 3, 3) == Ok::<Expr, FormulaError>(
        op_expr(p, leaf_of(a)->0, leaf_of(b)->0),
    )) by {
        assert(sum_scan(s, 0, 3, 3) == sum_scan(s, 0, 2, 3));
    }
    assert(sum_scan(s, 0, 5, 5) == sum_scan(s, 0, 4, 5));
}

/// Multiplicative operators group to the left: `a p b q c` is `(a p b) q c`
/// for leaves `a`, `b`, `c` and `×`/`÷` operators `p`, `q`.
pub proof fn law_product_left_associative(
    a: Scoped,
    b: Scoped,
    c: Scoped,
    p: Operator,
    q: Operator,
)
    requires
        leaf_of(a) is Some,
        leaf_of(b) is Some,
        leaf_of(c) is Some,
        multiplicative(p),
        multiplicative(q),
    ensures
        parse_sum(seq![a, op_token(p), b, op_token(q), c], 0, 5) == Ok::<Expr, FormulaError>(
            op_expr(q, op_expr(p, leaf_of(a)->0, leaf_of(b)->0), leaf_of(c)->0),
        ),
{
    let s = seq![a, op_token(p), b, op_token(q), c];
    lemma_single_leaf(s, 0);
    lemma_single_leaf(s, 2);
    lemma_single_leaf(s, 4);
    assert(product_scan(s, 0, 3, 3) == Ok::<Expr, FormulaError>(
        op_expr(p, leaf_of(a)->0, leaf_of(b)->0),
    )) by {
        assert(product_scan(s, 0, 3, 3) == product_scan(s, 0, 2, 3));
    }
    assert(product_scan(s, 0, 5, 5) == product_scan(s, 0, 4, 5));
    assert(sum_scan(s, 0, 5, 5) == sum_scan(s, 0, 0, 5)) by {
        assert(sum_scan(s, 0, 5, 5) == sum_scan(s, 0, 4, 5));
        assert(sum_scan(s, 0, 4, 5) == sum_scan(s, 0, 3, 5));
        assert(sum_scan(s, 0, 3, 5) == sum_scan(s, 0, 2, 5));
        assert(sum_scan(s, 0, 2, 5) == sum_scan(s, 0, 1, 5));
        assert(sum_scan(s, 0, 1, 5) == sum_scan(s, 0, 0, 5));
    }
}

/// Powers group to the right: `a ^ b ^ c` is `a ^ (b ^ c)` for leaves.
pub proof fn law_power_right_associative(a: Scoped, b: Scoped, c: Scoped)
    requires
        leaf_of(a) is Some,
        leaf_of(b) is Some,
        leaf_of(c) is Some,
    ensures
        parse_sum(
            seq![a, op_token(Operator::Exponentiation), b, op_token(Operator::Exponentiation), c],
            0,
            5,
        ) == Ok::<Expr, FormulaError>(
            op_expr(
                Operator::Exponentiation,
                leaf_of(a)->0,
                op_expr(Operator::Exponentiation, leaf_of(b)->0, leaf_of(c)->0),
            ),
        ),
{
    let s = seq![a, op_token(Operator::Exponentiation), b, op_token(Operator::Exponentiation), c];
    lemma_single_leaf(s, 0);
    lemma_single_leaf(s, 2);
    lemma_single_leaf(s, 4);
    assert(power_scan(s, 2, 2, 5) == Ok::<Expr, FormulaError>(
        op_expr(Operator::Exponentiation, leaf_of(b)->0, leaf_of(c)->0),
    )) by {
        assert(parse_leaf(s, 2, 3) == Ok::<Expr, FormulaError>(leaf_of(b)->0)) by {
            assert(apply_functions(s, 2, 2, leaf_of(b)->0) == Ok::<Expr, FormulaError>(
                leaf_of(b)->0,
            ));
        }
        assert(power_scan(s, 4, 4, 5) == Ok::<Expr, FormulaError>(leaf_of(c)->0));
        assert(power_scan(s, 2, 2, 5) == power_scan(s, 2, 3, 5));
    }
    assert(power_scan(s, 0, 0, 5) == power_scan(s, 0, 1, 5));
    assert(power_scan(s, 0, 0, 5) == Ok::<Expr, FormulaError>(
        op_expr(
            Operator::Exponentiation,
            leaf_of(a)->0,
            op_expr(Operator::Exponentiation, leaf_of(b)->0, leaf_of(c)->0),
        ),
    ));
    assert(product_scan(s, 0, 5, 5) == product_scan(s, 0, 0, 5)) by {
        assert(product_scan(s, 0, 5, 5) == product_scan(s, 0, 4, 5));
        assert(product_scan(s, 0, 4, 5) == product_scan(s, 0, 3, 5));
        assert(product_scan(s, 0, 3, 5) == product_scan(s, 0, 2, 5));
        assert(product_scan(s, 0, 2, 5) == product_scan(s, 0, 1, 5));
        assert(product_scan(s, 0, 1, 5) == product_scan(s, 0, 0, 5));
    }
    assert(sum_scan(s, 0, 5, 5) == sum_scan(s, 0, 0, 5)) by {
        assert(sum_scan(s, 0, 5, 5) == sum_scan(s, 0, 4, 5));
        assert(sum_scan(s, 0, 4, 5) == sum_scan(s, 0, 3, 5));
        assert(sum_scan(s, 0, 3, 5) == sum_scan(s, 0, 2, 5));
        assert(sum_scan(s, 0, 2, 5) == sum_scan(s, 0, 1, 5));
        assert(sum_scan(s, 0, 1, 5) == sum_scan(s, 0, 0, 5));
    }
}

/// Precedence: for leaves `a`, `b`, `c`, an additive operator `p` and a
/// multiplicative one `q`, products bind tighter than sums and powers tighter
/// than products, on either side.
pub proof fn law_precedence(a: Scoped, b: Scoped, c: Scoped, p: Operator, q: Operator)
    requires
        leaf_of(a) is Some,
        leaf_of(b) is Some,
        leaf_of(c) is Some,
        additive(p),
        multiplicative(q),
    ensures
        parse_sum(seq![a, op_token(p), b, op_token(q), c], 0, 5) == Ok::<Expr, FormulaError>(
            op_expr(p, leaf_of(a)->0, op_expr(q, leaf_of(b)->0, leaf_of(c)->0)),
        ),
        parse_sum(seq![a, op_token(q), b, op_token(p), c], 0, 5) == Ok::<Expr, FormulaError>(
            op_expr(p, op_expr(q, leaf_of(a)->0, leaf_of(b)->0), leaf_of(c)->0),
        ),
        parse_sum(seq![a, op_token(q), b, op_token(Operator::Exponentiation), c], 0, 5) == Ok::<
            Expr,
            FormulaError,
        >(op_expr(q, leaf_of(a)->0, op_expr(Operator::Exponentiation, leaf_of(b)->0, leaf_of(c)->0))),
        parse_sum(seq![a, op_token(Operator::Exponentiation), b, op_token(q), c], 0, 5) == Ok::<
            Expr,
            FormulaError,
        >(op_expr(q, op_expr(Operator::Exponentiation, leaf_of(a)->0, leaf_of(b)->0), leaf_of(c)->0)),
{
    let x = leaf_of(a)->0;
    let y = leaf_of(b)->0;
    let z = leaf_of(c)->0;
    let pow = Operator::Exponentiation;

    let s1 = seq![a, op_token(p), b, op_token(q), c];
    lemma_single_leaf(s1, 0);
    lemma_single_leaf(s1, 2);
    lemma_single_leaf(s1, 4);
    assert(product_scan(s1, 2, 5, 5) == product_scan(s1, 2, 4, 5));
    assert(sum_scan(s1, 0, 5, 5) == sum_scan(s1, 0, 2, 5)) by {
        assert(sum_scan(s1, 0, 5, 5) == sum_scan(s1, 0, 4, 5));
        assert(sum_scan(s1, 0, 4, 5) == sum_scan(s1, 0, 3, 5));
        assert(sum_scan(s1, 0, 3, 5) == sum_scan(s1, 0, 2, 5));
    }

    let s2 = seq![a, op_token(q), b, op_token(p), c];
    lemma_single_leaf(s2, 0);
    lemma_single_leaf(s2, 2);
    lemma_single_leaf(s2, 4);
    assert(product_scan(s2, 0, 3, 3) == Ok::<Expr, FormulaError>(op_expr(q, x, y))) by {
        assert(product_scan(s2, 0, 3, 3) == product_scan(s2, 0, 2, 3));
        assert(power_scan(s2, 2, 2, 3) == power_scan(s2, 2, 3, 3));
        assert(parse_leaf(s2, 2, 3) == Ok::<Expr, FormulaError>(y)) by {
            assert(apply_functions(s2, 2, 2, y) == Ok::<Expr, FormulaError>(y));
        }
    }
    assert(sum_scan(s2, 0, 3, 3) == sum_scan(s2, 0, 0, 3)) by {
        assert(sum_scan(s2, 0, 3, 3) == sum_scan(s2, 0, 2, 3));
        assert(sum_scan(s2, 0, 2, 3) == sum_scan(s2, 0, 1, 3));
        assert(sum_scan(s2, 0, 1, 3) == sum_scan(s2, 0, 0, 3));
    }
    assert(sum_scan(s2, 0, 5, 5) == sum_scan(s2, 0, 4, 5));

    let s3 = seq![a, op_token(q), b, op_token(pow), c];
    lemma_single_leaf(s3, 0);
    lemma_single_leaf(s3, 2);
    lemma_single_leaf(s3, 4);
    assert(power_scan(s3, 2, 2, 5) == Ok::<Expr, FormulaError>(op_expr(pow, y, z))) by {
        assert(power_scan(s3, 2, 2, 5) == power_scan(s3, 2, 3, 5));
        assert(parse_leaf(s3, 2, 3) == Ok::<Expr, FormulaError>(y)) by {
            assert(apply_functions(s3, 2, 2, y) == Ok::<Expr, FormulaError>(y));
        }
    }
    assert(product_scan(s3, 0, 5, 5) == product_scan(s3, 0, 2, 5)) by {
        assert(product_scan(s3, 0, 5, 5) == product_scan(s3, 0, 4, 5));
        assert(product_scan(s3, 0, 4, 5) == product_scan(s3, 0, 3, 5));
        assert(product_scan(s3, 0, 3, 5) == product_scan(s3, 0, 2, 5));
    }
    assert(sum_scan(s3, 0, 5, 5) == sum_scan(s3, 0, 0, 5)) by {
        assert(sum_scan(s3, 0, 5, 5) == sum_scan(s3, 0, 4, 5));
        assert(sum_scan(s3, 0, 4, 5) == sum_scan(s3, 0, 3, 5));
        assert(sum_scan(s3, 0, 3, 5) == sum_scan(s3, 0, 2, 5));
        assert(sum_scan(s3, 0, 2, 5) == sum_scan(s3, 0, 1, 5));
        assert(sum_scan(s3, 0, 1, 5) == sum_scan(s3, 0, 0, 5));
    }

    let s4 = seq![a, op_token(pow), b, op_token(q), c];
    lemma_single_leaf(s4, 0);
    lemma_single_leaf(s4, 2);
    lemma_single_leaf(s4, 4);
    assert(power_scan(s4, 0, 0, 3) == Ok::<Expr, FormulaError>(op_expr(pow, x, y))) by {
        assert(power_scan(s4, 0, 0, 3) == power_scan(s4, 0, 1, 3));
        assert(power_scan(s4, 2, 2, 3) == Ok::<Expr, FormulaError>(y));
    }
    assert(product_scan(s4, 0, 3, 3) == product_scan(s4, 0, 0, 3)) by {
        assert(product_scan(s4, 0, 3, 3) == product_scan(s4, 0, 2, 3));
        assert(product_scan(s4, 0, 2, 3) == product_scan(s4, 0, 1, 3));
        assert(product_scan(s4, 0, 1, 3) == product_scan(s4, 0, 0, 3));
    }
    assert(product_scan(s4, 0, 5, 5) == product_scan(s4, 0, 4, 5));
    assert(sum_scan(s4, 0, 5, 5) == sum_scan(s4, 0, 0, 5)) by {
        assert(sum_scan(s4, 0, 5, 5) == sum_scan(s4, 0, 4, 5));
        assert(sum_scan(s4, 0, 4, 5) == sum_scan(s4, 0, 3, 5));
        assert(sum_scan(s4, 0, 3, 5) == sum_scan(s4, 0, 2, 5));
        assert(sum_scan(s4, 0, 2, 5) == sum_scan(s4, 0, 1, 5));
        assert(sum_scan(s4, 0, 1, 5) == sum_scan(s4, 0, 0, 5));
    }
}

/// Implicit multiplication: two leaves side by side are multiplied, and a
/// power after them binds to the second one only (`2x^3` is `2·(x^3)`).
pub proof fn law_implicit_multiplication(a: Scoped, b: Scoped, c: Scoped)
    requires
        leaf_of(a) is Some,
        leaf_of(b) is Some,
        leaf_of(c) is Some,
    ensures
        ({
            let m = implicit(seq![a, b]);
            parse_sum(m, 0, m.len() as int) == Ok::<Expr, FormulaError>(
                op_expr(Operator::Multiplication, leaf_of(a)->0, leaf_of(b)->0),
            )
        }),
        ({
            let m = implicit(seq![a, b, op_token(Operator::Exponentiation), c]);
            parse_sum(m, 0, m.len() as int) == Ok::<Expr, FormulaError>(
                op_expr(
                    Operator::Multiplication,
                    leaf_of(a)->0,
                    op_expr(Operator::Exponentiation, leaf_of(b)->0, leaf_of(c)->0),
                ),
            )
        }),
{
    let x = leaf_of(a)->0;
    let y = leaf_of(b)->0;
    let mul = Operator::Multiplication;
    let pow = Operator::Exponentiation;

    let s1 = seq![a, b];
    let inner = seq![a, times(), b];
    assert(!power_follows(s1, 2));
    assert(implicit(s1) == seq![product(a, b)]) by {
        assert(implicit_from(s1, 2, product(a, b)) == seq![product(a, b)]);
    }
    lemma_single_leaf(inner, 0);
    lemma_single_leaf(inner, 2);
    assert(sum_scan(inner, 0, 3, 3) == Ok::<Expr, FormulaError>(op_expr(mul, x, y))) by {
        assert(sum_scan(inner, 0, 3, 3) == sum_scan(inner, 0, 2, 3));
        assert(sum_scan(inner, 0, 2, 3) == sum_scan(inner, 0, 1, 3));
        assert(sum_scan(inner, 0, 1, 3) == sum_scan(inner, 0, 0, 3));
        assert(product_scan(inner, 0, 3, 3) == product_scan(inner, 0, 2, 3));
        assert(power_scan(inner, 2, 2, 3) == Ok::<Expr, FormulaError>(y));
    }
    let m1 = seq![product(a, b)];
    assert(parse_leaf(m1, 0, 1) == Ok::<Expr, FormulaError>(op_expr(mul, x, y))) by {
        assert(m1[0] == Scoped::Scope(inner));
        assert(apply_functions(m1, 0, 0, op_expr(mul, x, y)) == Ok::<Expr, FormulaError>(
            op_expr(mul, x, y),
        ));
    }
    assert(sum_scan(m1, 0, 1, 1) == Ok::<Expr, FormulaError>(op_expr(mul, x, y))) by {
        assert(power_scan(m1, 0, 1, 1) == parse_leaf(m1, 0, 1));
        assert(power_scan(m1, 0, 0, 1) == power_scan(m1, 0, 1, 1));
        assert(product_scan(m1, 0, 0, 1) == power_scan(m1, 0, 0, 1));
        assert(product_scan(m1, 0, 1, 1) == product_scan(m1, 0, 0, 1));
        assert(sum_scan(m1, 0, 0, 1) == product_scan(m1, 0, 1, 1));
        assert(sum_scan(m1, 0, 1, 1) == sum_scan(m1, 0, 0, 1));
    }

    let s2 = seq![a, b, op_token(pow), c];
    let m2 = seq![a, times(), b, op_token(pow), c];
    assert(power_follows(s2, 2));
    assert(implicit(s2) =~= m2) by {
        assert(implicit_from(s2, 4, c) == seq![c]);
        assert(implicit_from(s2, 3, op_token(pow)) =~= seq![op_token(pow), c]);
        assert(implicit_from(s2, 2, b) =~= seq![b, op_token(pow), c]);
        assert(implicit_from(s2, 1, a) =~= seq![a, times()] + seq![b, op_token(pow), c]);
    }
    law_precedence(a, b, c, Operator::Addition, mul);
    assert(m2 == seq![a, op_token(mul), b, op_token(pow), c]);
}

/// Parses a scope as a sum of products of powers of leaves.
pub fn parse_scope(s: &Vec<ScopeElement>) -> (r: Result<Node, FormulaError>)
    ensures
        parsed_as(r, parse_sum(scoped_views(s@), 0, s@.len() as int)),
{
    sum_range(s, 0, s.len())
}

} // verus!
