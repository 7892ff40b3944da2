use quantum_sandbox::{formula_error, formula_or_zero, greet, Formula, FormulaError, Function, Node, Operator};

fn num(text: &str) -> Node {
    Node::Value(text.chars().collect())
}

fn var(c: char) -> Node {
    Node::Variable(c)
}

fn op(operator: Operator, left: Node, right: Node) -> Node {
    Node::Operation { operator, left: Box::new(left), right: Box::new(right) }
}

fn call(function: Function, argument: Node) -> Node {
    Node::Function { function, argument: Box::new(argument) }
}

fn tree(text: &str) -> Node {
    clone_node(Formula::parse(text).unwrap().root())
}

fn clone_node(node: &Node) -> Node {
    match node {
        Node::Value(text) => Node::Value(text.clone()),
        Node::Variable(c) => Node::Variable(*c),
        Node::Operation { operator, left, right } => op(*operator, clone_node(left), clone_node(right)),
        Node::Function { function, argument } => call(*function, clone_node(argument)),
    }
}

fn error(text: &str) -> FormulaError {
    match Formula::parse(text) {
        Ok(f) => panic!("parsed: {:?}", f),
        Err(e) => e,
    }
}

#[test]
fn single_variable_is_a_variable_node() {
    assert_eq!(tree("x"), var('x'));
}

#[test]
fn product_binds_tighter_than_sum() {
    assert_eq!(
        tree("2+3*4"),
        op(Operator::Addition, num("2"), op(Operator::Multiplication, num("3"), num("4")))
    );
}

#[test]
fn power_is_right_associative() {
    assert_eq!(
        tree("2^3^2"),
        op(
            Operator::Exponentiation,
            num("2"),
            op(Operator::Exponentiation, num("3"), num("2"))
        )
    );
}

#[test]
fn subtraction_is_left_associative() {
    assert_eq!(
        tree("10-3-2"),
        op(
            Operator::Subtraction,
            op(Operator::Subtraction, num("10"), num("3")),
            num("2")
        )
    );
}

#[test]
fn division_is_left_associative() {
    assert_eq!(
        tree("8/4/2"),
        op(Operator::Division, op(Operator::Division, num("8"), num("4")), num("2"))
    );
}

#[test]
fn number_before_bracket_multiplies() {
    assert_eq!(
        tree("2(3+4)"),
        op(Operator::Multiplication, num("2"), op(Operator::Addition, num("3"), num("4")))
    );
}

#[test]
fn number_before_variable_multiplies() {
    assert_eq!(tree("2x"), op(Operator::Multiplication, num("2"), var('x')));
}

#[test]
fn implicit_product_leaves_power_to_the_variable() {
    assert_eq!(
        tree("2x^3"),
        op(
            Operator::Multiplication,
            num("2"),
            op(Operator::Exponentiation, var('x'), num("3"))
        )
    );
}

#[test]
fn three_atoms_fuse_left_to_right() {
    assert_eq!(
        tree("2xy"),
        op(
            Operator::Multiplication,
            op(Operator::Multiplication, num("2"), var('x')),
            var('y')
        )
    );
}

#[test]
fn leading_minus_subtracts_from_zero() {
    assert_eq!(tree("-x"), op(Operator::Subtraction, num("0"), var('x')));
    assert_eq!(tree("+x"), op(Operator::Addition, num("0"), var('x')));
}

#[test]
fn sine_plus_cosine() {
    assert_eq!(
        tree("sin(x) + cos(x)"),
        op(
            Operator::Addition,
            call(Function::Sin, var('x')),
            call(Function::Cos, var('x'))
        )
    );
}

#[test]
fn imaginary_unit_squared() {
    assert_eq!(
        tree("i^2"),
        op(Operator::Exponentiation, var('i'), num("2"))
    );
}

#[test]
fn functions_nest_outermost_first() {
    assert_eq!(
        tree("sin cos x"),
        call(Function::Sin, call(Function::Cos, var('x')))
    );
    assert_eq!(tree("exp(-x^2)"), call(
        Function::Exp,
        op(Operator::Subtraction, num("0"), op(Operator::Exponentiation, var('x'), num("2")))
    ));
}

#[test]
fn potential_with_coefficient() {
    assert_eq!(
        tree("100x^2"),
        op(
            Operator::Multiplication,
            num("100"),
            op(Operator::Exponentiation, var('x'), num("2"))
        )
    );
}

#[test]
fn division_by_zero_still_parses() {
    assert_eq!(tree("1/0"), op(Operator::Division, num("1"), num("0")));
    assert_eq!(formula_error("1/0"), "");
}

#[test]
fn unmatched_brackets_are_reported() {
    assert_eq!(error("(x+1"), FormulaError::UnmatchedBrackets);
    assert_eq!(error("x+1)"), FormulaError::UnmatchedBrackets);
    assert_eq!(error("sin(x"), FormulaError::UnmatchedBrackets);
}

#[test]
fn trailing_operators_are_reported() {
    assert_eq!(error("x+"), FormulaError::TrailingOperator);
    assert_eq!(error("x-"), FormulaError::TrailingOperator);
    assert_eq!(error("x*"), FormulaError::TrailingOperator);
    assert_eq!(error("x/"), FormulaError::TrailingOperator);
    assert_eq!(error("x^"), FormulaError::TrailingOperator);
    assert_eq!(error("x^^"), FormulaError::TrailingOperator);
    assert_eq!(error("(x)+2* "), FormulaError::TrailingOperator);
}

#[test]
fn empty_formula_is_a_trailing_operator() {
    assert_eq!(error(""), FormulaError::TrailingOperator);
    assert_eq!(error("()"), FormulaError::TrailingOperator);
}

#[test]
fn missing_left_factor() {
    assert_eq!(error("*x"), FormulaError::TrailingOperator);
}

#[test]
fn missing_base_of_power() {
    assert_eq!(error("^x"), FormulaError::TrailingOperator);
    assert_eq!(error("^2"), FormulaError::TrailingOperator);
    assert_eq!(error("x+^2"), FormulaError::TrailingOperator);
}

#[test]
fn missing_operands_of_every_operator() {
    for text in ["1+", "1-", "2*", "*2", "^2", "2/", "/2", "2^"] {
        assert_eq!(error(text), FormulaError::TrailingOperator, "{}", text);
        match Formula::new(text) {
            Err(message) => assert_eq!(message, "Trailing operator"),
            Ok(_) => panic!("accepted {}", text),
        }
    }
}

#[test]
fn misplaced_function_is_a_syntax_error() {
    assert_eq!(error("sin"), FormulaError::FunctionSyntax);
    assert_eq!(error("x sin"), FormulaError::FunctionSyntax);
    assert_eq!(error("x y"), FormulaError::FunctionSyntax);
}

#[test]
fn whitespace_inside_brackets_is_not_removed() {
    assert_eq!(error("(x )"), FormulaError::FunctionSyntax);
}

#[test]
fn lexing_errors_pass_through() {
    assert_eq!(error("2e"), FormulaError::ParseError);
    assert_eq!(error("x $"), FormulaError::InvalidCharacter);
}

#[test]
fn new_reports_a_sentence() {
    match Formula::new("(x") {
        Err(message) => assert_eq!(message, "Unmatched brackets"),
        Ok(_) => panic!("accepted"),
    }
    assert!(Formula::new("x").is_ok());
}

#[test]
fn formula_error_messages() {
    assert_eq!(formula_error("x"), "");
    assert_eq!(formula_error("x+"), "Trailing operator");
    assert_eq!(formula_error("2e"), "Parsing error");
    assert_eq!(formula_error("x#"), "Invalid character detected");
    assert_eq!(formula_error("^x"), "Trailing operator");
    assert_eq!(formula_error("sin"), "Expected function call");
    assert_eq!(formula_error(")"), "Unmatched brackets");
}

#[test]
fn error_messages_of_every_kind() {
    assert_eq!(FormulaError::MissingVariable.message(), "Missing value for variable");
    assert_eq!(FormulaError::DivisionByZero.message(), "Division by zero");
    assert_eq!(FormulaError::MissingOperand.message(), "Value or variable expected");
}

#[test]
fn unparsable_formula_plots_as_zero() {
    assert_eq!(formula_or_zero("(").root(), &num("0"));
    assert_eq!(formula_or_zero("x").root(), &var('x'));
}

#[test]
fn complex_phase_tree() {
    let phase = Formula::complex_phase("1.5");
    assert_eq!(
        phase.root(),
        &op(
            Operator::Exponentiation,
            num("2.718281828459045"),
            op(
                Operator::Multiplication,
                var('i'),
                op(Operator::Multiplication, num("1.5"), var('x'))
            )
        )
    );
}

#[test]
fn adjoin_joins_two_formulas() {
    let joined = Formula::parse("x").unwrap().adjoin(Formula::parse("2").unwrap(), Operator::Multiplication);
    assert_eq!(joined.root(), &op(Operator::Multiplication, var('x'), num("2")));
}

#[test]
fn greeting() {
    assert_eq!(greet("World"), "Hello, World!");
}
