use cli_calculator::tokens::{DecimalLit, Num, ParenType, Op, Token};

fn decimal(neg: bool, int_part: &str, frac_part: &str) -> Num {
    Num::Decimal(DecimalLit {
        neg,
        int_part: int_part.to_owned(),
        frac_part: frac_part.to_owned(),
    })
}

#[test]
fn mod_test_new_number() {
    let t = Token::new_number("1");
    assert_eq!(t, Token::Number(Num::Integer(1)));

    let t = Token::new_number("1937");
    assert_eq!(t, Token::Number(Num::Integer(1937)));

    let t = Token::new_number("-909082");
    assert_eq!(t, Token::Number(Num::Integer(-909082)));

    let t = Token::new_number("15.281");
    assert_eq!(t, Token::Number(decimal(false, "15", "281")));

    let t = Token::new_number("0.237");
    assert_eq!(t, Token::Number(decimal(false, "0", "237")));

    // A decimal literal needs a digit after the point.
    let t = Token::new_number("10.");
    assert_eq!(t, Token::InvalidToken("10.".to_owned()));
}

#[test]
fn mod_test_new_number_invalid() {
    let t = Token::new_number("10.e");
    assert_eq!(t, Token::InvalidToken("10.e".to_owned()));

    let t = Token::new_number("10ef");
    assert_eq!(t, Token::InvalidToken("10ef".to_owned()));

    let t = Token::new_number("(");
    assert_eq!(t, Token::InvalidToken("(".to_owned()));

    let t = Token::new_number("+");
    assert_eq!(t, Token::InvalidToken("+".to_owned()));
}

#[test]
fn mod_test_new_op() {
    let t = Token::new_op("+");
    assert_eq!(t, Token::Operator(Op::Add));

    let t = Token::new_op("-");
    assert_eq!(t, Token::Operator(Op::Sub));

    let t = Token::new_op("/");
    assert_eq!(t, Token::Operator(Op::Div));

    let t = Token::new_op("*");
    assert_eq!(t, Token::Operator(Op::Mult));
}

#[test]
fn mod_test_new_op_invalid() {
    let t = Token::new_op("10.e");
    assert_eq!(t, Token::InvalidToken("10.e".to_owned()));

    let t = Token::new_op("10ef");
    assert_eq!(t, Token::InvalidToken("10ef".to_owned()));

    let t = Token::new_op("(");
    assert_eq!(t, Token::InvalidToken("(".to_owned()));

    let t = Token::new_op("+1");
    assert_eq!(t, Token::InvalidToken("+1".to_owned()));
}

#[test]
fn mod_test_new_paren() {
    let t = Token::new_paren("(");
    assert_eq!(t, Token::Paren(ParenType::OpenParen));

    let t = Token::new_paren(")");
    assert_eq!(t, Token::Paren(ParenType::CloseParen));
}

#[test]
fn mod_test_new_paren_invalid() {
    let t = Token::new_paren("10.e");
    assert_eq!(t, Token::InvalidToken("10.e".to_owned()));

    let t = Token::new_paren("10ef");
    assert_eq!(t, Token::InvalidToken("10ef".to_owned()));

    let t = Token::new_paren("(_");
    assert_eq!(t, Token::InvalidToken("(_".to_owned()));

    let t = Token::new_paren("+1");
    assert_eq!(t, Token::InvalidToken("+1".to_owned()));
}

#[test]
fn mod_test_new_variable() {
    let t = Token::new_variable("dkainas;kf;jkaspfkjsfj");
    assert_eq!(t, Token::Variable("dkainas;kf;jkaspfkjsfj".to_owned()));
}

#[test]
fn tests_test_new_number() {
    let t = Token::new_number("1");
    assert_eq!(t, Token::Number(Num::Integer(1)));

    let t = Token::new_number("1937");
    assert_eq!(t, Token::Number(Num::Integer(1937)));

    let t = Token::new_number("-909082");
    assert_eq!(t, Token::Number(Num::Integer(-909082)));

    let t = Token::new_number("15.281");
    assert_eq!(t, Token::Number(decimal(false, "15", "281")));

    let t = Token::new_number("0.237");
    assert_eq!(t, Token::Number(decimal(false, "0", "237")));

    let t = Token::new_number("10.");
    assert_eq!(t, Token::InvalidToken("10.".to_owned()));
}

#[test]
fn tests_test_new_number_invalid() {
    let t = Token::new_number("10.e");
    assert_eq!(t, Token::InvalidToken("10.e".to_owned()));

    let t = Token::new_number("10ef");
    assert_eq!(t, Token::InvalidToken("10ef".to_owned()));

    let t = Token::new_number("(");
    assert_eq!(t, Token::InvalidToken("(".to_owned()));

    let t = Token::new_number("+");
    assert_eq!(t, Token::InvalidToken("+".to_owned()));
}

#[test]
fn tests_test_new_op() {
    let t = Token::new_op("+");
    assert_eq!(t, Token::Operator(Op::Add));

    let t = Token::new_op("-");
    assert_eq!(t, Token::Operator(Op::Sub));

    let t = Token::new_op("/");
    assert_eq!(t, Token::Operator(Op::Div));

    let t = Token::new_op("*");
    assert_eq!(t, Token::Operator(Op::Mult));
}

#[test]
fn tests_test_new_op_invalid() {
    let t = Token::new_op("10.e");
    assert_eq!(t, Token::InvalidToken("10.e".to_owned()));

    let t = Token::new_op("10ef");
    assert_eq!(t, Token::InvalidToken("10ef".to_owned()));

    let t = Token::new_op("(");
    assert_eq!(t, Token::InvalidToken("(".to_owned()));

    let t = Token::new_op("+1");
    assert_eq!(t, Token::InvalidToken("+1".to_owned()));
}

#[test]
fn tests_test_new_paren() {
    let t = Token::new_paren("(");
    assert_eq!(t, Token::Paren(ParenType::OpenParen));

    let t = Token::new_paren(")");
    assert_eq!(t, Token::Paren(ParenType::CloseParen));
}

#[test]
fn tests_test_new_paren_invalid() {
    let t = Token::new_paren("10.e");
    assert_eq!(t, Token::InvalidToken("10.e".to_owned()));

    let t = Token::new_paren("10ef");
    assert_eq!(t, Token::InvalidToken("10ef".to_owned()));

    let t = Token::new_paren("(_");
    assert_eq!(t, Token::InvalidToken("(_".to_owned()));

    let t = Token::new_paren("+1");
    assert_eq!(t, Token::InvalidToken("+1".to_owned()));
}

#[test]
fn tests_test_new_variable() {
    let t = Token::new_variable("dkainas;kf;jkaspfkjsfj");
    assert_eq!(t, Token::Variable("dkainas;kf;jkaspfkjsfj".to_owned()));
}

#[test]
fn render_restores_number_text() {
    assert_eq!(Token::new_number("1.24").render(), "1.24");
    assert_eq!(Token::new_number(".19").render(), ".19");
    assert_eq!(Token::new_number("-12").render(), "-12");
    assert_eq!(Token::new_number("120").render(), "120");
    assert_eq!(Token::new_variable("_92").render(), "_92");
    assert_eq!(Token::new_op("*").render(), "*");
    assert_eq!(Token::new_paren(")").render(), ")");
}

#[test]
fn display_text_of_unevaluable_tokens() {
    assert_eq!(Token::Whitespace.display_text(), "''");
    assert_eq!(Token::EOL.display_text(), "EoL");
    assert_eq!(Token::InvalidToken("zzz".to_owned()).display_text(), "Invalid");
}

#[test]
fn integer_literal_range_edges() {
    let t = Token::new_number("9223372036854775807");
    assert_eq!(t, Token::Number(Num::Integer(9223372036854775807)));

    let t = Token::new_number("-9223372036854775808");
    assert_eq!(t, Token::Number(Num::Integer(-9223372036854775808)));

    // One past either end no longer parses as a 64-bit signed integer,
    // and without a fractional part it is no decimal either.
    let t = Token::new_number("9223372036854775808");
    assert_eq!(t, Token::InvalidToken("9223372036854775808".to_owned()));

    let t = Token::new_number("-9223372036854775809");
    assert_eq!(t, Token::InvalidToken("-9223372036854775809".to_owned()));
}

