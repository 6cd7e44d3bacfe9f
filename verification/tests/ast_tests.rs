use cli_calculator::ast::{Instr, AST};
use cli_calculator::environment::Environment;
use cli_calculator::tokens::{Op, Token};

/// Runs the arithmetic program an evaluation compiled to, in IEEE double
/// precision.
fn run(prog: Vec<Instr>) -> Result<f64, String> {
    let mut stack: Vec<f64> = Vec::new();
    for instr in prog {
        match instr {
            Instr::PushNumber(n) => {
                let text = Token::Number(n).render();
                stack.push(text.parse::<f64>().unwrap());
            }
            Instr::PushValue(bits) => stack.push(f64::from_bits(bits)),
            Instr::Apply(op) => {
                let right = stack.pop().unwrap();
                let left = stack.pop().unwrap();
                let value = match op {
                    Op::Add => left + right,
                    Op::Sub => left - right,
                    Op::Mult => left * right,
                    Op::Div => {
                        if right == 0.0 {
                            return Err("Divide by Zero".to_owned());
                        }
                        left / right
                    }
                };
                stack.push(value);
            }
            Instr::Fail(e) => return Err(e.message()),
        }
    }
    Ok(stack.pop().unwrap())
}

#[test]
fn simple_evaluate() {
    let left = AST::new(Token::new_number("19"), None, None);
    let right = AST::new(Token::new_number("2"), None, None);
    let root = AST::new(Token::new_op("/"), Some(left), Some(right));

    let env = Environment::new();
    let val = run(AST::evaluate(root, &env)).expect("should be 9.5");
    assert_eq!(val, 9.5);
}

#[test]
fn complex_evaluate() {
    let left = AST::new(Token::new_number("19"), None, None);
    let right = AST::new(Token::new_number("2"), None, None);
    let root = AST::new(Token::new_op("+"), Some(left), Some(right));

    let left = root;
    let right = AST::new(Token::new_number("3"), None, None);
    let root = AST::new(Token::new_op("/"), Some(left), Some(right));

    let left = root;
    let right = AST::new(Token::new_number("10.5"), None, None);
    let root = AST::new(Token::new_op("-"), Some(left), Some(right));

    let env = Environment::new();
    let val = run(AST::evaluate(root, &env)).expect("should be 7.0");
    assert_eq!(val, -3.5);
}

#[test]
fn no_left_node() {
    let root = AST::new(Token::new_op("/"), None, None);
    let env = Environment::new();
    let error = run(AST::evaluate(root, &env)).expect_err("should throw 'Invalid Expression'");
    assert_eq!(error, "Invalid Expression");
}

#[test]
fn no_right_node() {
    let left = AST::new(Token::new_number("19"), None, None);
    let root = AST::new(Token::new_op("/"), Some(left), None);
    let env = Environment::new();
    let error = run(AST::evaluate(root, &env)).expect_err("should throw 'Invalid Expression'");
    assert_eq!(error, "Invalid Expression");
}

#[test]
fn divide_by_zero() {
    let left = AST::new(Token::new_number("19"), None, None);
    let right = AST::new(Token::new_number("0"), None, None);
    let root = AST::new(Token::new_op("/"), Some(left), Some(right));
    let env = Environment::new();
    let error = run(AST::evaluate(root, &env)).expect_err("should throw 'Divide by Zero'");
    assert_eq!(error, "Divide by Zero");
}

#[test]
fn build_tree() {
    let v = vec![
        Token::new_number("1.24"),
        Token::new_op("+"),
        Token::new_number("9"),
        Token::new_op("-"),
        Token::new_number(".19"),
        Token::new_op("*"),
        Token::new_number("15"),
        Token::new_op("-"),
        Token::new_number("120"),
        Token::new_op("/"),
        Token::new_number("10"),
    ];
    let env = Environment::new();
    let root: Box<AST> = AST::build_tree(&v).expect("The tree should build successfully.");
    let result = run(AST::evaluate(root, &env)).expect("the result should be a real value");
    assert_eq!(result, -4.609999999999999);
}

#[test]
fn evaluate_single_number() {
    let v = vec![Token::new_number("1.24"), Token::EOL];
    let env = Environment::new();
    let root: Box<AST> = AST::build_tree(&v).expect("the tree should build successfully");
    let result = run(AST::evaluate(root, &env)).expect("should be a real value");
    assert_eq!(result, 1.24);
}

#[test]
fn invalid_tree() {
    let v = vec![
        Token::new_number("1"),
        Token::new_op("-"),
        Token::new_op("+"),
        Token::EOL,
    ];
    let error_msg = AST::build_tree(&v).expect_err("Tree should fail to build").message();
    assert_eq!(error_msg, "Invalid Expression");
}

#[test]
fn evaluate_paren() {
    let v = vec![
        Token::new_paren("("),
        Token::new_number("10"),
        Token::new_op("+"),
        Token::new_paren("("),
        Token::new_number("9"),
        Token::new_op("-"),
        Token::new_number("19"),
        Token::new_paren(")"),
        Token::new_op("*"),
        Token::new_paren("("),
        Token::new_number("10"),
        Token::new_op("+"),
        Token::new_number("5"),
        Token::new_paren(")"),
        Token::new_op("-"),
        Token::new_number("120"),
        Token::new_paren(")"),
        Token::new_op("/"),
        Token::new_number("10"),
    ];
    let env = Environment::new();
    let root: Box<AST> = AST::build_tree(&v).expect("The tree should build successfully.");
    let result = run(AST::evaluate(root, &env)).expect("the result should be a real value");
    assert_eq!(result, -26.0);
}

#[test]
fn evaluate_variables() {
    let mut env = Environment::new();
    env.insert("x0".to_owned(), 9.2f64.to_bits());
    let v = vec![
        Token::new_variable("x0"),
        Token::new_op("+"),
        Token::new_number("10"),
    ];
    let root: Box<AST> = AST::build_tree(&v).expect("The tree should build successfully.");
    let result = run(AST::evaluate(root, &env)).expect("the result should be a real value");
    assert_eq!(result, 19.2);
}

#[test]
fn evaluate_paren_missing_close_paren() {
    let v = vec![
        Token::new_paren("("),
        Token::new_number("10"),
        Token::new_op("+"),
        Token::new_paren("("),
        Token::new_number("9"),
        Token::new_op("-"),
        Token::new_number("19"),
        Token::new_paren(")"),
        Token::new_op("*"),
        Token::new_paren("("),
        Token::new_number("10"),
        Token::new_op("+"),
        Token::new_number("5"),
        Token::new_paren(")"),
        Token::new_op("-"),
        Token::new_number("120"),
        Token::new_op("/"),
        Token::new_number("10"),
    ];
    let error = AST::build_tree(&v).expect_err("The tree should fail to build.").message();
    assert_eq!(error, "Missing )");
}

#[test]
fn evaluate_paren_too_many_close_paren() {
    let v = vec![
        Token::new_number("10"),
        Token::new_op("+"),
        Token::new_paren("("),
        Token::new_number("9"),
        Token::new_op("-"),
        Token::new_number("19"),
        Token::new_paren(")"),
        Token::new_op("*"),
        Token::new_paren("("),
        Token::new_number("10"),
        Token::new_op("+"),
        Token::new_number("5"),
        Token::new_paren(")"),
        Token::new_op("-"),
        Token::new_number("120"),
        Token::new_paren(")"),
        Token::new_op("/"),
        Token::new_number("10"),
    ];
    let error = AST::build_tree(&v).expect_err("The tree should fail to build.").message();
    assert_eq!(error, "Extra )");
}

#[test]
fn no_operation_in_expression() {
    let v = vec![Token::new_number("10.2"), Token::new_number("0.3")];
    let error = AST::build_tree(&v).expect_err("The tree should fail to build.").message();
    assert_eq!(error, "Invalid Expression");
}

#[test]
fn negative_numbers_at_start_of_expression() {
    let v = vec![Token::new_op("-"), Token::new_number("10")];
    let tree = AST::build_tree(&v).expect("expect tree with '-10' to build");
    let env = Environment::new();
    let result = run(AST::evaluate(tree, &env)).expect("expect result -10");
    assert_eq!(result, -10.0);

    let v = vec![Token::new_op("-"), Token::new_variable("var")];
    let tree = AST::build_tree(&v).expect("expect tree with '-var' to build");
    let mut env = Environment::new();
    env.insert("var".to_string(), 24.1f64.to_bits());
    let result = run(AST::evaluate(tree, &env)).expect("expect result -24.1");
    assert_eq!(result, -24.1);

    let v = vec![
        Token::new_op("-"),
        Token::new_paren("("),
        Token::new_number("267"),
        Token::new_paren(")"),
    ];
    let tree = AST::build_tree(&v).expect("expect tree with '-(267)' to build");
    let env = Environment::new();
    let result = run(AST::evaluate(tree, &env)).expect("expect result -267");
    assert_eq!(result, -267.0);

    let v = vec![
        Token::new_op("-"),
        Token::new_paren("("),
        Token::new_number("25"),
        Token::new_op("*"),
        Token::new_number("4"),
        Token::new_paren(")"),
    ];
    let tree = AST::build_tree(&v).expect("expect tree with '-(25 * 4)' to build");
    let env = Environment::new();
    let result = run(AST::evaluate(tree, &env)).expect("expect result -100");
    assert_eq!(result, -100.0);
}

#[test]
fn negative_numbers_after_operator() {
    for (i, operator) in [
        Token::new_op("+"),
        Token::new_op("-"),
        Token::new_op("*"),
        Token::new_op("/"),
    ]
    .iter()
    .enumerate()
    {
        let v = vec![
            Token::new_number("7"),
            operator.clone(),
            Token::new_op("-"),
            Token::new_number("10"),
        ];
        let tree = AST::build_tree(&v).expect("expect tree to build for 7 _ -10");
        let env = Environment::new();
        let result0 = run(AST::evaluate(tree, &env)).expect("expect numerical result");

        let v = vec![
            Token::new_number("2"),
            operator.clone(),
            Token::new_op("-"),
            Token::new_variable("var"),
        ];
        let tree = AST::build_tree(&v).expect("expect tree for 2 _ -var to build");
        let mut env = Environment::new();
        env.insert("var".to_string(), 24.1f64.to_bits());
        let result1 = run(AST::evaluate(tree, &env)).expect("expect numerical result");

        let v = vec![
            Token::new_number("5"),
            operator.clone(),
            Token::new_op("-"),
            Token::new_paren("("),
            Token::new_number("267"),
            Token::new_paren(")"),
        ];
        let tree = AST::build_tree(&v).expect("expect tree for 5 _ -(267) to build");
        let env = Environment::new();
        let result2 = run(AST::evaluate(tree, &env)).expect("expect numerical result");

        let v = vec![
            Token::new_number("3"),
            operator.clone(),
            Token::new_op("-"),
            Token::new_paren("("),
            Token::new_number("25"),
            Token::new_op("*"),
            Token::new_number("4"),
            Token::new_paren(")"),
        ];
        let tree = AST::build_tree(&v).expect("expect tree for 3 _ -(25 * 4) to build");
        let env = Environment::new();
        let result3 = run(AST::evaluate(tree, &env)).expect("expect numerical result");

        match i {
            0 => {
                assert_eq!(result0, 7.0 + -10.0);
                assert_eq!(result1, 2.0 + -24.1);
                assert_eq!(result2, 5.0 + -(267.0));
                assert_eq!(result3, 3.0 + -(25.0 * 4.0));
            }
            1 => {
                assert_eq!(result0, 7.0 - -10.0);
                assert_eq!(result1, 2.0 - -24.1);
                assert_eq!(result2, 5.0 - -(267.0));
                assert_eq!(result3, 3.0 - -(25.0 * 4.0));
            }
            2 => {
                assert_eq!(result0, 7.0 * -10.0);
                assert_eq!(result1, 2.0 * -24.1);
                assert_eq!(result2, 5.0 * -(267.0));
                assert_eq!(result3, 3.0 * -(25.0 * 4.0));
            }
            3 => {
                assert_eq!(result0, 7.0 / -10.0);
                assert_eq!(result1, 2.0 / -24.1);
                // `- ( ... )` rewrites to `-1` times the group, and a
                // division to its left ties with that multiplication, so
                // the later multiplication becomes the root: the division
                // binds first.
                assert_eq!(result2, (5.0 / -1.0) * 267.0);
                assert_eq!(result3, (3.0 / -1.0) * (25.0 * 4.0));
            }
            _ => (),
        };
    }
}

#[test]
fn no_tokens_to_parse() {
    let v: Vec<Token> = vec![];
    let error = AST::build_tree(&v).expect_err("an empty sequence has no tree").message();
    assert_eq!(error, "No tokens to parse");
}

#[test]
fn unknown_variable_reports_its_name() {
    let root = AST::new_leaf(Token::new_variable("qq"));
    let env = Environment::new();
    let error = run(AST::evaluate(root, &env)).expect_err("the variable is unbound");
    assert_eq!(error, "Unknown Variable: qq");
}

#[test]
fn cannot_evaluate_stray_token() {
    let root = AST::new_leaf(Token::EOL);
    let env = Environment::new();
    let error = run(AST::evaluate(root, &env)).expect_err("an end-of-line mark has no value");
    assert_eq!(error, "Cannot evaluate EoL");
}

#[test]
fn division_by_zero_beats_a_later_unknown_variable() {
    // Evaluation order decides which error surfaces: the division on the
    // left fails before the unbound variable on the right is reached.
    let one = AST::new(Token::new_number("1"), None, None);
    let zero = AST::new(Token::new_number("0"), None, None);
    let div = AST::new(Token::new_op("/"), Some(one), Some(zero));
    let var = AST::new(Token::new_variable("qq"), None, None);
    let root = AST::new(Token::new_op("+"), Some(div), Some(var));
    let env = Environment::new();
    let error = run(AST::evaluate(root, &env)).expect_err("the division fails first");
    assert_eq!(error, "Divide by Zero");
}

#[test]
fn literal_expression_is_idempotent() {
    // Evaluating the same literal expression twice yields identical
    // results, even though the environment gained bindings in between.
    let v = vec![
        Token::new_number("1.24"),
        Token::new_op("*"),
        Token::new_number("3"),
    ];
    let mut env = Environment::new();
    let first_tree = AST::build_tree(&v).expect("the tree should build");
    let first = run(AST::evaluate(first_tree, &env)).expect("a numeric result");
    env.insert("x0".to_string(), first.to_bits());
    let second_tree = AST::build_tree(&v).expect("the tree should build");
    let second = run(AST::evaluate(second_tree, &env)).expect("a numeric result");
    assert_eq!(first, second);
}

#[test]
fn leading_minus_inside_parens() {
    let v = vec![
        Token::new_paren("("),
        Token::new_op("-"),
        Token::new_number("5"),
        Token::new_paren(")"),
    ];
    let tree = AST::build_tree(&v).expect("expect tree with '(-5)' to build");
    let env = Environment::new();
    let result = run(AST::evaluate(tree, &env)).expect("expect result -5");
    assert_eq!(result, -5.0);

    let v = vec![
        Token::new_paren("("),
        Token::new_op("-"),
        Token::new_variable("var"),
        Token::new_paren(")"),
    ];
    let tree = AST::build_tree(&v).expect("expect tree with '(-var)' to build");
    let mut env = Environment::new();
    env.insert("var".to_string(), 24.1f64.to_bits());
    let result = run(AST::evaluate(tree, &env)).expect("expect result -24.1");
    assert_eq!(result, -24.1);
}

