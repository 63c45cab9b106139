use expr_parser::do_parse;
use expr_parser::Expression;
use expr_parser::InfixOp;
use expr_parser::ParseError;

fn num(v: i32) -> Expression {
    Expression::Number(v)
}

fn bin(op: InfixOp, l: Expression, r: Expression) -> Expression {
    Expression::infix(op, l, r)
}

fn leaves(e: &Expression) -> usize {
    match e {
        Expression::Number(_) => 1,
        Expression::Infix(_, l, r) => leaves(l) + leaves(r),
    }
}

fn op_nodes(e: &Expression) -> usize {
    match e {
        Expression::Number(_) => 0,
        Expression::Infix(_, l, r) => 1 + op_nodes(l) + op_nodes(r),
    }
}

fn expect_syntax_error_at(input: &str, expected: usize) {
    match do_parse(input) {
        Err(ParseError::SyntaxError { position, .. }) => assert_eq!(position, expected),
        other => panic!("expected a syntax error at {}, got {:?}", expected, other),
    }
}

fn expect_literal_error(input: &str, expected_text: &str) {
    match do_parse(input) {
        Err(ParseError::LiteralError { text, .. }) => assert_eq!(text, expected_text),
        other => panic!("expected a literal error for {:?}, got {:?}", expected_text, other),
    }
}

#[test]
fn single_number() {
    assert_eq!(do_parse("42").unwrap(), num(42));
}

#[test]
fn zero() {
    assert_eq!(do_parse("0").unwrap(), num(0));
}

#[test]
fn leading_zeros() {
    assert_eq!(do_parse("0002").unwrap(), num(2));
}

#[test]
fn precedence() {
    assert_eq!(
        do_parse("2+3*4").unwrap(),
        bin(InfixOp::Plus, num(2), bin(InfixOp::Times, num(3), num(4))),
    );
}

#[test]
fn left_associativity() {
    assert_eq!(
        do_parse("8-3-2").unwrap(),
        bin(InfixOp::Minus, bin(InfixOp::Minus, num(8), num(3)), num(2)),
    );
}

#[test]
fn right_associativity() {
    assert_eq!(
        do_parse("2^3^2").unwrap(),
        bin(InfixOp::Power, num(2), bin(InfixOp::Power, num(3), num(2))),
    );
}

#[test]
fn mixed_precedence_and_associativity() {
    assert_eq!(
        do_parse("2*3+4*5").unwrap(),
        bin(
            InfixOp::Plus,
            bin(InfixOp::Times, num(2), num(3)),
            bin(InfixOp::Times, num(4), num(5)),
        ),
    );
}

#[test]
fn power_binds_tighter_than_times() {
    assert_eq!(
        do_parse("2^3*4").unwrap(),
        bin(InfixOp::Times, bin(InfixOp::Power, num(2), num(3)), num(4)),
    );
}

#[test]
fn division_modulus_chain() {
    assert_eq!(
        do_parse("7/2%3").unwrap(),
        bin(InfixOp::Modulus, bin(InfixOp::Divide, num(7), num(2)), num(3)),
    );
}

#[test]
fn all_operators() {
    assert_eq!(
        do_parse("1+2-3*4/5%6^7").unwrap(),
        bin(
            InfixOp::Minus,
            bin(InfixOp::Plus, num(1), num(2)),
            bin(
                InfixOp::Modulus,
                bin(InfixOp::Divide, bin(InfixOp::Times, num(3), num(4)), num(5)),
                bin(InfixOp::Power, num(6), num(7)),
            ),
        ),
    );
}

#[test]
fn spaces_between_tokens() {
    assert_eq!(
        do_parse(" 2 + 3 ").unwrap(),
        bin(InfixOp::Plus, num(2), num(3)),
    );
}

#[test]
fn largest_literal() {
    assert_eq!(do_parse("2147483647").unwrap(), num(2147483647));
}

#[test]
fn literal_overflow() {
    expect_literal_error("99999999999999", "99999999999999");
}

#[test]
fn literal_just_past_the_largest() {
    expect_literal_error("2147483648", "2147483648");
}

#[test]
fn literal_error_reports_leftmost_overflow() {
    expect_literal_error("1+99999999999999+88888888888888", "99999999999999");
}

#[test]
fn malformed_input_missing_operand() {
    expect_syntax_error_at("2+", 2);
}

#[test]
fn malformed_input_missing_operand_after_space() {
    expect_syntax_error_at("2+ ", 3);
}

#[test]
fn empty_input() {
    expect_syntax_error_at("", 0);
}

#[test]
fn spaces_only() {
    expect_syntax_error_at("   ", 3);
}

#[test]
fn unexpected_character() {
    expect_syntax_error_at("2+a", 2);
}

#[test]
fn adjacent_numbers() {
    expect_syntax_error_at("2 3", 2);
}

#[test]
fn leading_operator() {
    expect_syntax_error_at("+2", 0);
}

#[test]
fn doubled_operator() {
    expect_syntax_error_at("2++3", 2);
}

#[test]
fn syntax_error_wins_over_literal_error() {
    // The front end rejects the whole input before any leaf is resolved.
    expect_syntax_error_at("99999999999999+", 15);
}

#[test]
fn determinism_repeated_calls() {
    let a = do_parse("1+2*3^2-4").unwrap();
    let b = do_parse("1+2*3^2-4").unwrap();
    assert_eq!(a, b);
}

#[test]
fn structure_counts() {
    let e = do_parse("2+3*4-5").unwrap();
    // Four operands and three operators in the input.
    assert_eq!(leaves(&e), 4);
    assert_eq!(op_nodes(&e), 3);
    let single = do_parse("7").unwrap();
    assert_eq!(leaves(&single), 1);
    assert_eq!(op_nodes(&single), 0);
}
