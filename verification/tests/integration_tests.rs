use cli_calculator::ast::Instr;
use cli_calculator::environment::Environment;
use cli_calculator::tokens::{Op, Token};
use cli_calculator::{bind_result, evaluate_string_expression};

/// Runs the arithmetic program an evaluation compiled to, in IEEE double
/// precision.
fn run(prog: Vec<Instr>) -> Result<f64, String> {
    let mut stack: Vec<f64> = Vec::new();
    for instr in prog {
        match instr {
            Instr::PushNumber(n) => {
                let text = Token::Number(n).render();
                stack.push(text.parse::<f64>().unwrap());
            }
            Instr::PushValue(bits) => stack.push(f64::from_bits(bits)),
            Instr::Apply(op) => {
                let right = stack.pop().unwrap();
                let left = stack.pop().unwrap();
                let value = match op {
                    Op::Add => left + right,
                    Op::Sub => left - right,
                    Op::Mult => left * right,
                    Op::Div => {
                        if right == 0.0 {
                            return Err("Divide by Zero".to_owned());
                        }
                        left / right
                    }
                };
                stack.push(value);
            }
            Instr::Fail(e) => return Err(e.message()),
        }
    }
    Ok(stack.pop().unwrap())
}

/// Evaluates one clause against the environment: the output line for a
/// success (binding the next indexed variable), or the error text.
fn evaluate_clause(expression: &str, env: &mut Environment, index: u64) -> Result<String, String> {
    let prog = evaluate_string_expression(expression, env)?;
    let result = run(prog)?;
    let name = bind_result(env, index, result.to_bits());
    if result == result.floor() {
        Ok(format!("{} = {}.0", name, result))
    } else {
        Ok(format!("{} = {}", name, result))
    }
}

/// Evaluates a whole `;`-separated batch the way the command line does:
/// one output line per clause, the success index advancing only on
/// success, one environment shared throughout.
fn run_batch(batch: &str) -> String {
    let mut env = Environment::new();
    env.insert("pi".to_owned(), 3.14159f64.to_bits());
    let mut output = String::new();
    let mut index: u64 = 0;
    for expression in batch.split(';') {
        match evaluate_clause(expression, &mut env, index) {
            Ok(value) => {
                output.push_str(&value);
                index += 1;
            }
            Err(e) => output.push_str(&e),
        };
        output.push('\n');
    }
    output
}

fn test_cases() {
    let input_expected = vec![
        ("hi", "Unknown Variable: hi\n"),
        ("x *2", "Unknown Variable: x\n"),
        ("5 *2", "x0 = 10.0\n"),
        (
            "5.2= *2",
            "Unexpected character \"=\" at position 4\n5.2= *2\n   ^\n",
        ),
        ("(2 -9.0) / 3.0", "x0 = -2.3333333333333335\n"),
        (
            "10 + 7.( + 2",
            "Unexpected character \"(\" at position 8\n10 + 7.( + 2\n       ^\n",
        ),
        ("10.2", "x0 = 10.2\n"),
        ("10.2+", "Invalid Expression\n"),
        ("1/0", "Divide by Zero\n"),
        ("1-+", "Invalid Expression\n"),
        ("10.0", "x0 = 10.0\n"),
        ("10 * 2.0", "x0 = 20.0\n"),
        ("10", "x0 = 10.0\n"),
        ("10/2+3*4-6/3", "x0 = 15.0\n"),
        ("10.2.0", "Invalid Expression\n"),
        ("(10/ 2.5", "Missing )\n"),
        ("10/ 2.5)", "Extra )\n"),
        (
            "10 + 2;x0 / 2);x1 / 2; x0 / 2;10 = 2",
            "x0 = 12.0\nExtra )\nUnknown Variable: x1\nx1 = 6.0\nUnexpected character \"=\" at position 4\n10 = 2\n   ^\n",
        ),
        ("10(2 + 3)", "x0 = 50.0\n"),
        ("(2 + 3)10", "x0 = 50.0\n"),
    ];
    for (input, expected) in input_expected {
        let output = run_batch(input);
        assert_eq!(output, expected, "input: {input:?}");
    }
}

#[test]
fn test_python() {
    test_cases();
}

#[test]
fn test_rust() {
    test_cases();
}

#[test]
fn scenario_unary_minus() {
    assert_eq!(run_batch("- 10"), "x0 = -10.0\n");
    assert_eq!(run_batch("7 + -10"), "x0 = -3.0\n");
    assert_eq!(run_batch("2 * -(267)"), "x0 = -534.0\n");
}

#[test]
fn scenario_left_associativity() {
    // Equal-precedence operators associate left to right.
    assert_eq!(run_batch("10/2+3*4-6/3"), "x0 = 15.0\n");
    assert_eq!(run_batch("8 - 3 - 2"), "x0 = 3.0\n");
    assert_eq!(run_batch("16/4/2"), "x0 = 2.0\n");
}

#[test]
fn scenario_pi_is_preseeded() {
    assert_eq!(run_batch("pi"), "x0 = 3.14159\n");
    assert_eq!(run_batch("2 * pi"), "x0 = 6.28318\n");
}

#[test]
fn scenario_environment_persists_across_clauses() {
    assert_eq!(run_batch("1 + 1;x0 * 3"), "x0 = 2.0\nx1 = 6.0\n");
}

#[test]
fn scenario_non_ascii_expression() {
    assert_eq!(
        run_batch("2 \u{00d7} 3"),
        "Expression contains non-ascii characters.\n"
    );
}

#[test]
fn scenario_division_of_computed_denominator() {
    // The zero check looks at the computed divisor, not the literal.
    assert_eq!(run_batch("10 / (2 - 2)"), "Divide by Zero\n");
}

#[test]
fn scenario_empty_clause() {
    assert_eq!(run_batch(""), "No tokens to parse\n");
}

#[test]
fn environment_rebinding_shadows() {
    let mut env = Environment::new();
    env.insert("pi".to_owned(), 3.14159f64.to_bits());
    env.insert("pi".to_owned(), 2.5f64.to_bits());
    let prog = evaluate_string_expression("pi", &env).expect("pi is bound");
    assert_eq!(run(prog), Ok(2.5));
}

#[test]
fn scenario_unfinished_decimal() {
    // The synthetic trailing newline terminates the half-written decimal,
    // so the newline itself is the character that fits no token.
    assert_eq!(
        run_batch("7."),
        "Unexpected character \"\n\" at position 3\n7.\n  ^\n"
    );
}

#[test]
fn scenario_parenthesized_leading_minus() {
    // A minus straight after an open parenthesis is unary, also when the
    // parenthesis opens the expression.
    assert_eq!(run_batch("(-5)"), "x0 = -5.0\n");
    assert_eq!(run_batch("(-5) * 2"), "x0 = -10.0\n");
    assert_eq!(run_batch("2 * (-5)"), "x0 = -10.0\n");
    assert_eq!(run_batch("(-(2 + 3))"), "x0 = -5.0\n");
    assert_eq!(run_batch("(-pi)"), "x0 = -3.14159\n");
}

