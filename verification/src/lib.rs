//! A small arithmetic-expression calculator core: a finite-state lexical
//! scanner, a weighted-precedence tree builder, and an evaluator that
//! reduces a tree to a straight-line arithmetic program against a variable
//! environment.  Callers run the program's arithmetic and print the
//! results; every lexical, structural and environment decision is made and
//! verified here.
#![verifier::loop_isolation(false)]

pub mod ast;
pub mod environment;
pub mod lexical_analyzer;
pub mod round_trip;
pub mod tokens;

use crate::ast::{instr_views, Instr, InstrView};
use crate::environment::Environment;
use crate::lexical_analyzer::{
    all_ascii, spec_arrow, spec_scan, spec_unexpected_message, TokenParser,
};
use crate::tokens::{views, Token, TokenView};
use vstd::prelude::*;

verus! {

/// The position of the first embedded newline, or the length.
pub open spec fn spec_first_newline(s: Seq<char>, i: int) -> int
    decreases s.len() - i,
{
    if i < 0 || i >= s.len() {
        s.len() as int
    } else if s[i] == '\n' {
        i
    } else {
        spec_first_newline(s, i + 1)
    }
}

/// The error text for a character that fits no token: the message line,
/// the expression up to its first embedded newline, and a caret under the
/// offending column.
pub open spec fn spec_lex_error_text(s: Seq<char>, pos: int, value: Seq<char>) -> Seq<char> {
    spec_unexpected_message(pos, value) + seq!['\n'] + s.subrange(0, spec_first_newline(s, 0))
        + seq!['\n'] + spec_arrow(pos)
}

/// What `parse_tokens` yields on an expression: its token sequence, or
/// the text of the error that stopped the scan.
pub open spec fn spec_parse_tokens(s: Seq<char>) -> Result<Seq<TokenView>, Seq<char>> {
    if !all_ascii(s) {
        Err("Expression contains non-ascii characters."@)
    } else {
        match spec_scan(s, 0) {
            Ok(ts) => Ok(ts),
            Err((pos, value)) => Err(spec_lex_error_text(s, pos, value)),
        }
    }
}

/// What one whole evaluation yields on an expression: the arithmetic
/// program of its tree, or the text of the first error on the way there.
pub open spec fn spec_evaluate_string_expression(
    s: Seq<char>,
    env: Seq<(Seq<char>, u64)>,
) -> Result<Seq<InstrView>, Seq<char>> {
    match spec_parse_tokens(s) {
        Err(m) => Err(m),
        Ok(toks) => match crate::ast::spec_build_tree(toks) {
            Err(pe) => Err(crate::ast::spec_parse_error_message(pe)),
            Ok(tree) => Ok(crate::ast::spec_evaluate(tree, env)),
        },
    }
}

/// A successful scan yields at most one token per character, plus the
/// end-of-line mark.
proof fn lemma_scan_len(s: Seq<char>, pos: int)
    requires
        0 <= pos <= s.len() + 1,
    ensures
        spec_scan(s, pos) matches Ok(toks) ==> toks.len() <= s.len() + 1 - pos,
    decreases s.len() + 1 - pos,
{
    let (end, state) = crate::lexical_analyzer::spec_munch(
        s,
        pos,
        crate::lexical_analyzer::State::Initial,
    );
    crate::lexical_analyzer::lemma_munch_bounds(s, pos, crate::lexical_analyzer::State::Initial);
    if end <= s.len() {
        let text = s.subrange(pos, end);
        let potential = crate::lexical_analyzer::spec_token_from_state(state, text);
        if !(potential is InvalidToken) {
            lemma_scan_len(s, end);
        }
    }
}

/// Scans an expression into its token sequence, or renders the text of
/// the error that stopped the scan: the offending character and position,
/// the expression's first line, and a caret under the offending column.
pub fn parse_tokens(expression: &str) -> (r: Result<Vec<Token>, String>)
    requires
        expression@.len() < usize::MAX,
    ensures
        match r {
            Ok(v) => spec_parse_tokens(expression@) == Ok::<Seq<TokenView>, Seq<char>>(
                views(v@),
            ),
            Err(m) => spec_parse_tokens(expression@) == Err::<Seq<TokenView>, Seq<char>>(m@),
        },
{
    let owned = expression.to_owned();
    let mut parser = match TokenParser::new(&owned) {
        Ok(p) => p,
        Err(_) => {
            proof {
                reveal_strlit("Expression contains non-ascii characters.");
            }
            return Err("Expression contains non-ascii characters.".to_owned());
        },
    };
    match parser.get_tokens() {
        Ok(tokens) => Ok(tokens),
        Err(e) => {
            let n = expression.unicode_len();
            let mut end = n;
            let mut j: usize = 0;
            while j < n
                invariant
                    j <= n,
                    n == expression@.len(),
                    end == n,
                    spec_first_newline(expression@, 0) == spec_first_newline(
                        expression@,
                        j as int,
                    ),
                decreases n - j,
            {
                if expression.get_char(j) == '\n' {
                    end = j;
                    break ;
                }
                j += 1;
            }
            proof {
                assert(end as int == spec_first_newline(expression@, 0));
                reveal_strlit("\n");
            }
            let mut text = e.message();
            text.append("\n");
            let line = expression.substring_char(0, end);
            text.append(line);
            text.append("\n");
            let arrow = e.arrow();
            text.append(arrow.as_str());
            proof {
                assert(text@ =~= spec_lex_error_text(expression@, e@.position, e@.value));
            }
            Err(text)
        },
    }
}

/// Evaluates one expression against the environment as far as the core
/// reaches: scans it, builds its tree, and compiles the tree to its
/// arithmetic program, or yields the text of the first error.  The
/// program is safe for an executor: applies always find two operands, and
/// a failure instruction can only be its last step.  The length bounds
/// are what the machine forces: the scan yields at most one token per
/// character plus the end-of-line mark, and the tree builder's weight
/// arithmetic needs the token count below 2^52.
pub fn evaluate_string_expression(expression: &str, env: &Environment) -> (r: Result<
    Vec<Instr>,
    String,
>)
    requires
        expression@.len() < usize::MAX,
        expression@.len() < 0x8_0000_0000_0000,
    ensures
        match r {
            Ok(p) => spec_evaluate_string_expression(expression@, env@) == Ok::<
                Seq<InstrView>,
                Seq<char>,
            >(instr_views(p@)) && crate::ast::spec_program_safe(instr_views(p@)),
            Err(m) => spec_evaluate_string_expression(expression@, env@) == Err::<
                Seq<InstrView>,
                Seq<char>,
            >(m@),
        },
{
    let parsed_tokens: Vec<Token> = match parse_tokens(expression) {
        Ok(parsed) => parsed,
        Err(e) => {
            return Err(e);
        },
    };
    proof {
        lemma_scan_len(expression@, 0);
    }
    let tree = match crate::ast::AST::build_tree(&parsed_tokens) {
        Ok(parsed) => parsed,
        Err(e) => {
            return Err(e.message());
        },
    };
    Ok(crate::ast::AST::evaluate(tree, env))
}

/// Evaluating the same literal expression twice yields identical results:
/// for an expression whose tokens hold no variable reference, the whole
/// evaluation — scan, tree construction and program emission — is the
/// same in every environment, so the bindings earlier evaluations added
/// cannot change what it yields.
pub proof fn lemma_literal_expression_idempotent(
    s: Seq<char>,
    env1: Seq<(Seq<char>, u64)>,
    env2: Seq<(Seq<char>, u64)>,
)
    requires
        spec_parse_tokens(s) matches Ok(toks) ==> crate::ast::spec_tokens_literal(toks),
    ensures
        spec_evaluate_string_expression(s, env1) == spec_evaluate_string_expression(s, env2),
{
    match spec_parse_tokens(s) {
        Err(_) => {},
        Ok(toks) => {
            crate::ast::lemma_build_tree_literal(toks);
            match crate::ast::spec_build_tree(toks) {
                Err(_) => {},
                Ok(tree) => {
                    crate::ast::lemma_literal_evaluation_idempotent(tree, env1, env2);
                },
            }
        },
    }
}

/// The name of the `index`-th successful result: `x0`, `x1`, and so on.
pub fn format_var_name(index: u64) -> (r: String)
    ensures
        r@ == seq!['x'] + crate::tokens::spec_int_string(index as int),
{
    proof {
        reveal_strlit("x");
    }
    let mut s = "x".to_owned();
    let digits = crate::tokens::nat_to_string(index);
    s.append(digits.as_str());
    proof {
        assert(s@ =~= seq!['x'] + crate::tokens::spec_int_string(index as int));
    }
    s
}

/// Binds a freshly computed result to the next indexed variable: inserts
/// `x<index>` with the value's bit pattern and hands the name back.
pub fn bind_result(env: &mut Environment, index: u64, value_bits: u64) -> (r: String)
    ensures
        r@ == seq!['x'] + crate::tokens::spec_int_string(index as int),
        final(env)@ == old(env)@.push((r@, value_bits)),
{
    let name = format_var_name(index);
    let cloned = name.clone();
    env.insert(cloned, value_bits);
    name
}

} // verus!
