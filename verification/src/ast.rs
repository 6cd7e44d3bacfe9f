//! The expression tree: a binary tree of tokens built from a token
//! sequence by weighted-precedence root selection, and an evaluator that
//! reduces a tree to a straight-line arithmetic program against a variable
//! environment.  The program's arithmetic runs outside the core; every
//! structural decision — operator arity, variable resolution, evaluation
//! order, and where evaluation stops on an error — is made here.
use crate::environment::{spec_lookup, Environment};
use crate::tokens::{views, Num, NumView, Op, ParenType, Token, TokenView};
use vstd::prelude::*;

verus! {

/// An error of tree construction.
#[derive(Debug, Clone, Copy, PartialEq, Eq, Structural)]
pub enum ParseError {
    NoTokens,
    MissingParen,
    ExtraParen,
    InvalidExpression,
}

/// What `ParseError::message` says.
pub open spec fn spec_parse_error_message(e: ParseError) -> Seq<char> {
    match e {
        ParseError::NoTokens => "No tokens to parse"@,
        ParseError::MissingParen => "Missing )"@,
        ParseError::ExtraParen => "Extra )"@,
        ParseError::InvalidExpression => "Invalid Expression"@,
    }
}

impl ParseError {
    /// The error's display text.
    pub fn message(&self) -> (r: String)
        ensures
            r@ == spec_parse_error_message(*self),
    {
        match self {
            ParseError::NoTokens => {
                proof {
                    reveal_strlit("No tokens to parse");
                }
                "No tokens to parse".to_owned()
            },
            ParseError::MissingParen => {
                proof {
                    reveal_strlit("Missing )");
                }
                "Missing )".to_owned()
            },
            ParseError::ExtraParen => {
                proof {
                    reveal_strlit("Extra )");
                }
                "Extra )".to_owned()
            },
            ParseError::InvalidExpression => {
                proof {
                    reveal_strlit("Invalid Expression");
                }
                "Invalid Expression".to_owned()
            },
        }
    }
}

/// An error of evaluation.
#[derive(Debug)]
pub enum EvalError {
    InvalidExpression,
    UnknownVariable(String),
    CannotEvaluate(Token),
}

/// The mathematical value of an `EvalError`.
pub enum EvalErrorView {
    InvalidExpression,
    UnknownVariable(Seq<char>),
    CannotEvaluate(TokenView),
}

impl View for EvalError {
    type V = EvalErrorView;

    open spec fn view(&self) -> EvalErrorView {
        match self {
            EvalError::InvalidExpression => EvalErrorView::InvalidExpression,
            EvalError::UnknownVariable(name) => EvalErrorView::UnknownVariable(name@),
            EvalError::CannotEvaluate(t) => EvalErrorView::CannotEvaluate(t@),
        }
    }
}

/// What `EvalError::message` says.
pub open spec fn spec_eval_error_message(e: EvalErrorView) -> Seq<char> {
    match e {
        EvalErrorView::InvalidExpression => "Invalid Expression"@,
        EvalErrorView::UnknownVariable(name) => "Unknown Variable: "@ + name,
        EvalErrorView::CannotEvaluate(t) => "Cannot evaluate "@
            + crate::tokens::spec_display_token(t),
    }
}

impl EvalError {
    /// The error's display text.
    pub fn message(&self) -> (r: String)
        ensures
            r@ == spec_eval_error_message(self@),
    {
        match self {
            EvalError::InvalidExpression => {
                proof {
                    reveal_strlit("Invalid Expression");
                }
                "Invalid Expression".to_owned()
            },
            EvalError::UnknownVariable(name) => {
                proof {
                    reveal_strlit("Unknown Variable: ");
                }
                let mut s = "Unknown Variable: ".to_owned();
                s.append(name.as_str());
                s
            },
            EvalError::CannotEvaluate(t) => {
                proof {
                    reveal_strlit("Cannot evaluate ");
                }
                let mut s = "Cannot evaluate ".to_owned();
                let shown = t.display_text();
                s.append(shown.as_str());
                s
            },
        }
    }
}

/// One step of the arithmetic program an evaluation compiles to: push a
/// literal, push an already-computed value by its bit pattern, apply an
/// operator to the two topmost values, or stop with an error.
#[derive(Debug)]
pub enum Instr {
    PushNumber(Num),
    PushValue(u64),
    Apply(Op),
    Fail(EvalError),
}

/// The mathematical value of an `Instr`.
pub enum InstrView {
    PushNumber(NumView),
    PushValue(u64),
    Apply(Op),
    Fail(EvalErrorView),
}

impl View for Instr {
    type V = InstrView;

    open spec fn view(&self) -> InstrView {
        match self {
            Instr::PushNumber(n) => InstrView::PushNumber(n@),
            Instr::PushValue(b) => InstrView::PushValue(*b),
            Instr::Apply(op) => InstrView::Apply(*op),
            Instr::Fail(e) => InstrView::Fail(e@),
        }
    }
}

/// The views of an instruction sequence.
pub open spec fn instr_views(s: Seq<Instr>) -> Seq<InstrView> {
    s.map_values(|i: Instr| i@)
}

/// A binary expression tree node: a token value and up to two exclusively
/// owned children.
#[derive(Debug)]
pub struct AST {
    value: Token,
    left: Option<Box<AST>>,
    right: Option<Box<AST>>,
}

/// The mathematical value of an expression tree.
pub struct AstView {
    pub value: TokenView,
    pub left: Option<Box<AstView>>,
    pub right: Option<Box<AstView>>,
}

impl View for AST {
    type V = AstView;

    closed spec fn view(&self) -> AstView
        decreases self,
    {
        AstView {
            value: self.value@,
            left: match &self.left {
                Some(l) => Some(Box::new((**l)@)),
                None => None,
            },
            right: match &self.right {
                Some(r) => Some(Box::new((**r)@)),
                None => None,
            },
        }
    }
}

/// The views of a tree stack.
pub open spec fn ast_views(s: Seq<Box<AST>>) -> Seq<AstView> {
    s.map_values(|b: Box<AST>| b@)
}

/// The running state of program emission: the instructions so far, the
/// value-stack depth an executor would have, and whether emission has
/// stopped on an error.
pub struct EmitState {
    pub prog: Seq<InstrView>,
    pub depth: int,
    pub failed: bool,
}

/// Emits the program of one tree node in evaluation order — left subtree,
/// right subtree, then the node — threading the emission state through.
/// After a failure the state passes through unchanged, so the program ends
/// at its first error.
pub open spec fn spec_emit(t: AstView, env: Seq<(Seq<char>, u64)>, st: EmitState) -> EmitState
    decreases t,
{
    if st.failed {
        st
    } else {
        match t.value {
            TokenView::Operator(op) => {
                let s1 = match t.left {
                    Some(l) => spec_emit(*l, env, st),
                    None => st,
                };
                let s2 = match t.right {
                    Some(r) => spec_emit(*r, env, s1),
                    None => s1,
                };
                if s2.failed {
                    s2
                } else if s2.depth >= 2 {
                    EmitState {
                        prog: s2.prog.push(InstrView::Apply(op)),
                        depth: s2.depth - 1,
                        failed: false,
                    }
                } else {
                    EmitState {
                        prog: s2.prog.push(InstrView::Fail(EvalErrorView::InvalidExpression)),
                        depth: s2.depth,
                        failed: true,
                    }
                }
            },
            TokenView::Variable(name) => match spec_lookup(env, name) {
                Some(b) => EmitState {
                    prog: st.prog.push(InstrView::PushValue(b)),
                    depth: st.depth + 1,
                    failed: false,
                },
                None => EmitState {
                    prog: st.prog.push(InstrView::Fail(EvalErrorView::UnknownVariable(name))),
                    depth: st.depth,
                    failed: true,
                },
            },
            TokenView::Number(n) => EmitState {
                prog: st.prog.push(InstrView::PushNumber(n)),
                depth: st.depth + 1,
                failed: false,
            },
            _ => EmitState {
                prog: st.prog.push(InstrView::Fail(EvalErrorView::CannotEvaluate(t.value))),
                depth: st.depth,
                failed: true,
            },
        }
    }
}

/// Emits the programs of a stack of trees, topmost (last) first.
pub open spec fn spec_emit_stack(
    stack: Seq<AstView>,
    env: Seq<(Seq<char>, u64)>,
    st: EmitState,
) -> EmitState
    decreases stack.len(),
{
    if stack.len() == 0 {
        st
    } else {
        spec_emit_stack(stack.drop_last(), env, spec_emit(stack.last(), env, st))
    }
}

/// The program a whole tree evaluates to: its emission, and a final check
/// that exactly one value would be left on the executor's stack.
pub open spec fn spec_evaluate(t: AstView, env: Seq<(Seq<char>, u64)>) -> Seq<InstrView> {
    let st = spec_emit(t, env, EmitState { prog: Seq::empty(), depth: 0, failed: false });
    if st.failed {
        st.prog
    } else if st.depth == 1 {
        st.prog
    } else {
        st.prog.push(InstrView::Fail(EvalErrorView::InvalidExpression))
    }
}

/// The value-stack depth an executor has after running `p`.
pub open spec fn spec_depth_after(p: Seq<InstrView>) -> int
    decreases p.len(),
{
    if p.len() == 0 {
        0
    } else {
        let d = spec_depth_after(p.drop_last());
        match p.last() {
            InstrView::PushNumber(_) => d + 1,
            InstrView::PushValue(_) => d + 1,
            InstrView::Apply(_) => d - 1,
            InstrView::Fail(_) => d,
        }
    }
}

/// What makes a program safe to execute: every apply finds two values on
/// the stack, a failure instruction can only end the program, and a
/// program that does not end in a failure leaves exactly one value.
pub open spec fn spec_program_safe(p: Seq<InstrView>) -> bool {
    &&& forall|i: int|
        0 <= i < p.len() && p[i] is Apply ==> spec_depth_after(#[trigger] p.subrange(0, i)) >= 2
    &&& forall|i: int| 0 <= i < p.len() && #[trigger] p[i] is Fail ==> i == p.len() - 1
    &&& (p.len() == 0 || !(p.last() is Fail)) ==> spec_depth_after(p) == 1 && p.len() > 0
}

/// A failed emission state passes through a stack of trees unchanged.
proof fn lemma_emit_stack_failed(stack: Seq<AstView>, env: Seq<(Seq<char>, u64)>, st: EmitState)
    requires
        st.failed,
    ensures
        spec_emit_stack(stack, env, st) == st,
    decreases stack.len(),
{
    if stack.len() > 0 {
        lemma_emit_stack_failed(stack.drop_last(), env, st);
    }
}

/// Emitting a pushed stack emits the pushed tree first.
proof fn lemma_emit_stack_push(
    s: Seq<AstView>,
    t: AstView,
    env: Seq<(Seq<char>, u64)>,
    st: EmitState,
)
    ensures
        spec_emit_stack(s.push(t), env, st) == spec_emit_stack(s, env, spec_emit(t, env, st)),
{
    assert(s.push(t).drop_last() =~= s);
    assert(s.push(t).last() == t);
}

/// A program that was safe so far and ends with a failure instruction is
/// safe.
proof fn lemma_safe_after_fail(p: Seq<InstrView>, e: EvalErrorView)
    requires
        forall|i: int|
            0 <= i < p.len() && p[i] is Apply ==> spec_depth_after(
                #[trigger] p.subrange(0, i),
            ) >= 2,
        forall|i: int| 0 <= i < p.len() ==> !(#[trigger] p[i] is Fail),
    ensures
        spec_program_safe(p.push(InstrView::Fail(e))),
{
    let q = p.push(InstrView::Fail(e));
    lemma_depth_trace_push(p, InstrView::Fail(e));
    assert forall|i: int| 0 <= i < q.len() && q[i] is Apply implies spec_depth_after(
        #[trigger] q.subrange(0, i),
    ) >= 2 by {
        assert(i < p.len());
        assert(q[i] == p[i]);
        assert(q.subrange(0, i) =~= p.subrange(0, i));
    }
    assert forall|i: int| 0 <= i < q.len() && #[trigger] q[i] is Fail implies i == q.len()
        - 1 by {
        if i < p.len() {
            assert(q[i] == p[i]);
        }
    }
    assert(q.last() is Fail);
}

/// A program that was safe so far, holds no failure, and leaves one value
/// is safe.
proof fn lemma_safe_no_fail(p: Seq<InstrView>)
    requires
        forall|i: int|
            0 <= i < p.len() && p[i] is Apply ==> spec_depth_after(
                #[trigger] p.subrange(0, i),
            ) >= 2,
        forall|i: int| 0 <= i < p.len() ==> !(#[trigger] p[i] is Fail),
        spec_depth_after(p) == 1,
    ensures
        spec_program_safe(p),
{
    assert(p.len() > 0);
}

/// Splitting an operator node into its left child and the node without
/// that child emits the same program.
proof fn lemma_emit_split_left(t: AstView, l: AstView, env: Seq<(Seq<char>, u64)>, st: EmitState)
    requires
        t.value is Operator,
        t.left == Some(Box::new(l)),
    ensures
        spec_emit(t, env, st) == spec_emit(
            AstView { value: t.value, left: None, right: t.right },
            env,
            spec_emit(l, env, st),
        ),
{
    let rem = AstView { value: t.value, left: None, right: t.right };
    assert(*Box::new(l) == l);
    if st.failed {
        assert(spec_emit(l, env, st) == st);
        assert(spec_emit(t, env, st) == st);
        assert(spec_emit(rem, env, st) == st);
    } else {
        let s1 = spec_emit(l, env, st);
        if s1.failed {
            match t.right {
                Some(r) => {
                    assert(spec_emit(*r, env, s1) == s1);
                },
                None => {},
            }
            assert(spec_emit(t, env, st) == s1);
            assert(spec_emit(rem, env, s1) == s1);
        } else {
            assert(spec_emit(rem, env, s1) == spec_emit(t, env, st));
        }
    }
}

/// Splitting an operator node without a left child into its right child
/// and the bare node emits the same program.
proof fn lemma_emit_split_right(t: AstView, r: AstView, env: Seq<(Seq<char>, u64)>, st: EmitState)
    requires
        t.value is Operator,
        t.left is None,
        t.right == Some(Box::new(r)),
    ensures
        spec_emit(t, env, st) == spec_emit(
            AstView { value: t.value, left: None, right: None },
            env,
            spec_emit(r, env, st),
        ),
{
    let rem = AstView { value: t.value, left: None, right: None };
    assert(*Box::new(r) == r);
    if st.failed {
        assert(spec_emit(r, env, st) == st);
        assert(spec_emit(t, env, st) == st);
        assert(spec_emit(rem, env, st) == st);
    } else {
        let s1 = spec_emit(r, env, st);
        if s1.failed {
            assert(spec_emit(t, env, st) == s1);
            assert(spec_emit(rem, env, s1) == s1);
        } else {
            assert(spec_emit(rem, env, s1) == spec_emit(t, env, st));
        }
    }
}

/// The pop budget of a tree: how many times the evaluator's work stack
/// pops a node of it (once per node, plus once per present child).
pub open spec fn spec_pops(t: AstView) -> nat
    decreases t,
{
    (1 + (match t.left {
        Some(l) => 1 + spec_pops(*l),
        None => 0nat,
    }) + (match t.right {
        Some(r) => 1 + spec_pops(*r),
        None => 0nat,
    })) as nat
}

/// The pop budget of a stack of trees.
pub open spec fn spec_pops_sum(s: Seq<AstView>) -> nat
    decreases s.len(),
{
    if s.len() == 0 {
        0nat
    } else {
        (spec_pops_sum(s.drop_last()) + spec_pops(s.last())) as nat
    }
}

impl AST {
    /// A node with the given token value and children.
    pub fn new(value: Token, left: Option<Box<AST>>, right: Option<Box<AST>>) -> (r: Box<Self>)
        ensures
            r@.value == value@,
            r@.left == (match left {
                Some(l) => Some(Box::new(l@)),
                None => None::<Box<AstView>>,
            }),
            r@.right == (match right {
                Some(x) => Some(Box::new(x@)),
                None => None::<Box<AstView>>,
            }),
    {
        let ast = AST { left, right, value };
        Box::new(ast)
    }

    /// A leaf node holding one token.
    pub fn new_leaf(value: Token) -> (r: Box<Self>)
        ensures
            r@.value == value@,
            r@.left is None,
            r@.right is None,
    {
        Self::new(value, None, None)
    }

    /// Compiles the tree to its arithmetic program in evaluation order:
    /// left subtree, right subtree, then the operator.  Number leaves push
    /// their literal; variable leaves push the value bound in `env`, or end
    /// the program with an unknown-variable failure; an operator with a
    /// missing operand, a leftover value, or a token no evaluation rule
    /// covers ends it with its failure.  The resulting program is safe for
    /// an executor: applies always find two operands, and a failure can
    /// only be its last step.
    pub fn evaluate(ast: Box<Self>, env: &Environment) -> (r: Vec<Instr>)
        ensures
            instr_views(r@) == spec_evaluate(ast@, env@),
            spec_program_safe(instr_views(r@)),
    {
        let ghost root = ast@;
        let ghost init = EmitState { prog: Seq::empty(), depth: 0, failed: false };
        let ghost goal = spec_emit_stack(seq![root], env@, init);
        let mut stack: Vec<Box<AST>> = Vec::new();
        stack.push(ast);
        let mut prog: Vec<Instr> = Vec::new();
        let mut depth: usize = 0;
        proof {
            assert(ast_views(stack@) =~= seq![root]);
            assert(instr_views(prog@) =~= Seq::<InstrView>::empty());
            assert(seq![root].drop_last() =~= Seq::<AstView>::empty());
            assert(seq![root].last() == root);
            assert(spec_emit_stack(Seq::<AstView>::empty(), env@, spec_emit(root, env@, init))
                == spec_emit(root, env@, init));
            assert(goal == spec_emit(root, env@, init));
        }
        while stack.len() != 0
            invariant
                depth <= prog@.len(),
                spec_emit_stack(
                    ast_views(stack@),
                    env@,
                    EmitState { prog: instr_views(prog@), depth: depth as int, failed: false },
                ) == goal,
                depth as int == spec_depth_after(instr_views(prog@)),
                forall|i: int|
                    0 <= i < instr_views(prog@).len() && instr_views(prog@)[i] is Apply
                        ==> spec_depth_after(
                        #[trigger] instr_views(prog@).subrange(0, i),
                    ) >= 2,
                forall|i: int|
                    0 <= i < instr_views(prog@).len() ==> !(#[trigger] instr_views(
                        prog@,
                    )[i] is Fail),
            decreases spec_pops_sum(ast_views(stack@)),
        {
            let ghost stack_before = ast_views(stack@);
            let ghost state_before = EmitState {
                prog: instr_views(prog@),
                depth: depth as int,
                failed: false,
            };
            let item = stack.pop().unwrap();
            let ghost t = item@;
            proof {
                assert(stack_before.last() == t);
                assert(ast_views(stack@) =~= stack_before.drop_last());
                assert(stack_before =~= stack_before.drop_last().push(t));
                lemma_emit_stack_push(stack_before.drop_last(), t, env@, state_before);
                assert(spec_emit_stack(
                    stack_before.drop_last(),
                    env@,
                    spec_emit(t, env@, state_before),
                ) == goal);
            }
            let boxed = *item;
            let AST { value, left, right } = boxed;
            match value {
                Token::Operator(op) => {
                    match (left, right) {
                        (Some(l), rest_right) => {
                            let ghost lv = l@;
                            let remainder = AST {
                                value: Token::Operator(op),
                                left: None,
                                right: rest_right,
                            };
                            proof {
                                assert(t.value == TokenView::Operator(op));
                                assert(t.left == Some(Box::new(lv)));
                                lemma_emit_split_left(t, lv, env@, state_before);
                                assert(remainder@ == AstView {
                                    value: t.value,
                                    left: None,
                                    right: t.right,
                                });
                            }
                            let ghost rv = remainder@;
                            stack.push(Box::new(remainder));
                            stack.push(l);
                            proof {
                                assert(ast_views(stack@) =~= stack_before.drop_last().push(
                                    rv,
                                ).push(lv));
                                lemma_emit_stack_push(
                                    stack_before.drop_last().push(rv),
                                    lv,
                                    env@,
                                    state_before,
                                );
                                lemma_emit_stack_push(
                                    stack_before.drop_last(),
                                    rv,
                                    env@,
                                    spec_emit(lv, env@, state_before),
                                );
                                lemma_pops_split_left(t, lv, rv);
                                lemma_pops_sum_push(stack_before.drop_last(), rv);
                                lemma_pops_sum_push(stack_before.drop_last().push(rv), lv);
                                lemma_pops_sum_push(stack_before.drop_last(), t);
                            }
                        },
                        (None, Some(r)) => {
                            let ghost rv0 = r@;
                            let remainder = AST {
                                value: Token::Operator(op),
                                left: None,
                                right: None,
                            };
                            proof {
                                assert(t.value == TokenView::Operator(op));
                                assert(t.left is None);
                                assert(t.right == Some(Box::new(rv0)));
                                lemma_emit_split_right(t, rv0, env@, state_before);
                                assert(remainder@ == AstView {
                                    value: t.value,
                                    left: None,
                                    right: None,
                                });
                            }
                            let ghost rv = remainder@;
                            stack.push(Box::new(remainder));
                            stack.push(r);
                            proof {
                                assert(ast_views(stack@) =~= stack_before.drop_last().push(
                                    rv,
                                ).push(rv0));
                                lemma_emit_stack_push(
                                    stack_before.drop_last().push(rv),
                                    rv0,
                                    env@,
                                    state_before,
                                );
                                lemma_emit_stack_push(
                                    stack_before.drop_last(),
                                    rv,
                                    env@,
                                    spec_emit(rv0, env@, state_before),
                                );
                                lemma_pops_split_right(t, rv0, rv);
                                lemma_pops_sum_push(stack_before.drop_last(), rv);
                                lemma_pops_sum_push(stack_before.drop_last().push(rv), rv0);
                                lemma_pops_sum_push(stack_before.drop_last(), t);
                            }
                        },
                        (None, None) => {
                            proof {
                                assert(t.value == TokenView::Operator(op));
                                assert(t.left is None && t.right is None);
                                lemma_pops_sum_push(stack_before.drop_last(), t);
                            }
                            if depth >= 2 {
                                let ghost before_push = instr_views(prog@);
                                prog.push(Instr::Apply(op));
                                depth = depth - 1;
                                proof {
                                    assert(instr_views(prog@) =~= before_push.push(
                                        InstrView::Apply(op),
                                    ));
                                    lemma_depth_trace_push(before_push, InstrView::Apply(op));
                                    assert(spec_emit(t, env@, state_before) == EmitState {
                                        prog: instr_views(prog@),
                                        depth: depth as int,
                                        failed: false,
                                    });
                                }
                            } else {
                                let ghost before_push = instr_views(prog@);
                                prog.push(Instr::Fail(EvalError::InvalidExpression));
                                proof {
                                    assert(instr_views(prog@) =~= before_push.push(
                                        InstrView::Fail(EvalErrorView::InvalidExpression),
                                    ));
                                    let failed_state = spec_emit(t, env@, state_before);
                                    assert(failed_state.failed);
                                    lemma_emit_stack_failed(
                                        stack_before.drop_last(),
                                        env@,
                                        failed_state,
                                    );
                                    lemma_depth_trace_push(
                                        before_push,
                                        InstrView::Fail(EvalErrorView::InvalidExpression),
                                    );
                                    assert(goal == failed_state);
                                    assert(instr_views(prog@) == failed_state.prog);
                                    assert(spec_evaluate(root, env@) == instr_views(prog@));
                                    lemma_safe_after_fail(
                                        before_push,
                                        EvalErrorView::InvalidExpression,
                                    );
                                }
                                return prog;
                            }
                        },
                    }
                },
                Token::Variable(name) => {
                    proof {
                        assert(t.value == TokenView::Variable(name@));
                        lemma_pops_sum_push(stack_before.drop_last(), t);
                    }
                    match env.get(name.as_str()) {
                        Some(bits) => {
                            let ghost before_push = instr_views(prog@);
                            prog.push(Instr::PushValue(bits));
                            proof {
                                assert(vstd::std_specs::vec::spec_vec_len(&prog) == prog@.len());
                            }
                            depth = depth + 1;
                            proof {
                                assert(instr_views(prog@) =~= before_push.push(
                                    InstrView::PushValue(bits),
                                ));
                                lemma_depth_trace_push(before_push, InstrView::PushValue(bits));
                            }
                        },
                        None => {
                            let ghost nm = name@;
                            let ghost before_push = instr_views(prog@);
                            prog.push(Instr::Fail(EvalError::UnknownVariable(name)));
                            proof {
                                let failed_state = spec_emit(t, env@, state_before);
                                assert(failed_state.failed);
                                assert(instr_views(prog@) =~= before_push.push(
                                    InstrView::Fail(EvalErrorView::UnknownVariable(nm)),
                                ));
                                lemma_emit_stack_failed(
                                    stack_before.drop_last(),
                                    env@,
                                    failed_state,
                                );
                                assert(goal == failed_state);
                                assert(instr_views(prog@) == failed_state.prog);
                                assert(spec_evaluate(root, env@) == instr_views(prog@));
                                lemma_safe_after_fail(
                                    before_push,
                                    EvalErrorView::UnknownVariable(nm),
                                );
                            }
                            return prog;
                        },
                    }
                },
                Token::Number(num) => {
                    let ghost nv = num@;
                    proof {
                        assert(t.value == TokenView::Number(nv));
                        lemma_pops_sum_push(stack_before.drop_last(), t);
                    }
                    let ghost before_push = instr_views(prog@);
                    prog.push(Instr::PushNumber(num));
                    proof {
                        assert(vstd::std_specs::vec::spec_vec_len(&prog) == prog@.len());
                    }
                    depth = depth + 1;
                    proof {
                        assert(instr_views(prog@) =~= before_push.push(InstrView::PushNumber(nv)));
                        lemma_depth_trace_push(before_push, InstrView::PushNumber(nv));
                    }
                },
                other => {
                    let ghost ov = other@;
                    proof {
                        assert(t.value == ov);
                        lemma_pops_sum_push(stack_before.drop_last(), t);
                    }
                    let ghost before_push = instr_views(prog@);
                    prog.push(Instr::Fail(EvalError::CannotEvaluate(other)));
                    proof {
                        let failed_state = spec_emit(t, env@, state_before);
                        assert(failed_state.failed);
                        assert(instr_views(prog@) =~= before_push.push(
                            InstrView::Fail(EvalErrorView::CannotEvaluate(ov)),
                        ));
                        lemma_emit_stack_failed(stack_before.drop_last(), env@, failed_state);
                        assert(goal == failed_state);
                        assert(instr_views(prog@) == failed_state.prog);
                        assert(spec_evaluate(root, env@) == instr_views(prog@));
                        lemma_safe_after_fail(
                            before_push,
                            EvalErrorView::CannotEvaluate(ov),
                        );
                    }
                    return prog;
                },
            }
        }
        proof {
            assert(ast_views(stack@).len() == 0);
            assert(spec_emit_stack(ast_views(stack@), env@, EmitState {
                prog: instr_views(prog@),
                depth: depth as int,
                failed: false,
            }) == EmitState {
                prog: instr_views(prog@),
                depth: depth as int,
                failed: false,
            });
        }
        if depth != 1 {
            let ghost before_push = instr_views(prog@);
            prog.push(Instr::Fail(EvalError::InvalidExpression));
            proof {
                assert(instr_views(prog@) =~= before_push.push(
                    InstrView::Fail(EvalErrorView::InvalidExpression),
                ));
                lemma_safe_after_fail(before_push, EvalErrorView::InvalidExpression);
                assert(spec_evaluate(root, env@) == instr_views(prog@));
            }
        } else {
            proof {
                lemma_safe_no_fail(instr_views(prog@));
                assert(spec_evaluate(root, env@) == instr_views(prog@));
            }
        }
        prog
    }
}

/// The token a unary minus turns a numeric literal into: the negated
/// literal, or — for a literal that already carries a minus — an invalid
/// token holding the doubly-signed text.
pub open spec fn spec_negate_num(n: NumView) -> TokenView {
    match n {
        NumView::Integer(v) => if v >= 0 {
            TokenView::Number(NumView::Integer(-v))
        } else {
            TokenView::InvalidToken(seq!['-'] + crate::tokens::spec_int_string(v))
        },
        NumView::Decimal(d) => if !d.neg {
            TokenView::Number(
                NumView::Decimal(
                    crate::tokens::DecimalLitView {
                        neg: true,
                        int_part: d.int_part,
                        frac_part: d.frac_part,
                    },
                ),
            )
        } else {
            TokenView::InvalidToken(
                seq!['-'] + crate::tokens::spec_render_num(NumView::Decimal(d)),
            )
        },
    }
}

/// The literal `-1`, as unary-minus rewriting inserts it.
pub open spec fn spec_neg_one() -> TokenView {
    TokenView::Number(NumView::Integer(-1))
}

/// What `- <variable>` rewrites to: `( -1 * <variable> )`.
pub open spec fn spec_neg_var_group(v: Seq<char>) -> Seq<TokenView> {
    seq![
        TokenView::Paren(ParenType::OpenParen),
        spec_neg_one(),
        TokenView::Operator(Op::Mult),
        TokenView::Variable(v),
        TokenView::Paren(ParenType::CloseParen),
    ]
}

/// Unary-minus rewriting of a two-token sequence: a leading minus followed
/// by a number, a variable or an open parenthesis is rewritten; anything
/// else passes through.
pub open spec fn spec_unary_pair(t0: TokenView, t1: TokenView) -> Seq<TokenView> {
    if t0 == TokenView::Operator(Op::Sub) {
        match t1 {
            TokenView::Paren(ParenType::OpenParen) => seq![spec_neg_one(), t1],
            TokenView::Number(n) => seq![spec_negate_num(n)],
            TokenView::Variable(v) => spec_neg_var_group(v),
            _ => seq![t0, t1],
        }
    } else {
        seq![t0, t1]
    }
}

/// Unary-minus rewriting from sliding-window position `i` on, with `skip`
/// marking a token the previous window already consumed.  Window `i` looks
/// at the token after `i` with its two neighbours; a minus after an
/// operator or an open parenthesis is unary and rewrites together with
/// what follows it.
pub open spec fn spec_unary_rest(ts: Seq<TokenView>, i: int, skip: bool) -> Seq<TokenView>
    decreases ts.len() - i,
{
    if i + 2 >= ts.len() {
        if skip {
            Seq::empty()
        } else {
            seq![ts.last()]
        }
    } else if skip {
        spec_unary_rest(ts, i + 1, false)
    } else {
        let w0 = ts[i];
        let w1 = ts[i + 1];
        let w2 = ts[i + 2];
        if (w0 is Operator || w0 == TokenView::Paren(ParenType::OpenParen)) && w1
            == TokenView::Operator(Op::Sub) {
            match w2 {
                TokenView::Number(n) => seq![spec_negate_num(n)] + spec_unary_rest(ts, i + 1, true),
                TokenView::Paren(ParenType::OpenParen) => seq![spec_neg_one()] + spec_unary_rest(
                    ts,
                    i + 1,
                    false,
                ),
                TokenView::Variable(v) => spec_neg_var_group(v) + spec_unary_rest(ts, i + 1, true),
                _ => seq![w1] + spec_unary_rest(ts, i + 1, false),
            }
        } else {
            seq![w1] + spec_unary_rest(ts, i + 1, false)
        }
    }
}

/// Unary-minus rewriting of the first window of a sequence of three or
/// more tokens: a leading minus binds to what follows it, a minus right
/// after a leading operator or open parenthesis rewrites like every later
/// unary minus, and a leading invalid token is dropped.
pub open spec fn spec_unary_start(ts: Seq<TokenView>) -> Seq<TokenView> {
    let t0 = ts[0];
    let t1 = ts[1];
    let t2 = ts[2];
    if (t0 is Operator || t0 == TokenView::Paren(ParenType::OpenParen)) && t1
        == TokenView::Operator(Op::Sub) {
        match t2 {
            TokenView::Number(n) => seq![t0, spec_negate_num(n)] + spec_unary_rest(ts, 1, true),
            TokenView::Paren(ParenType::OpenParen) => seq![t0, spec_neg_one()] + spec_unary_rest(
                ts,
                1,
                false,
            ),
            TokenView::Variable(v) => seq![t0] + spec_neg_var_group(v) + spec_unary_rest(
                ts,
                1,
                true,
            ),
            _ => seq![t0, t1] + spec_unary_rest(ts, 1, false),
        }
    } else if t0 == TokenView::Operator(Op::Sub) {
        match t1 {
            TokenView::Paren(ParenType::OpenParen) => seq![spec_neg_one(), t1] + spec_unary_rest(
                ts,
                1,
                false,
            ),
            TokenView::Number(n) => seq![spec_negate_num(n)] + spec_unary_rest(ts, 1, false),
            TokenView::Variable(v) => spec_neg_var_group(v) + spec_unary_rest(ts, 1, false),
            _ => seq![t0, t1] + spec_unary_rest(ts, 1, false),
        }
    } else if t0 is InvalidToken {
        if t1 == TokenView::Operator(Op::Sub) {
            match t2 {
                TokenView::Number(n) => seq![spec_negate_num(n)] + spec_unary_rest(ts, 1, true),
                TokenView::Paren(ParenType::OpenParen) => seq![spec_neg_one()] + spec_unary_rest(
                    ts,
                    1,
                    false,
                ),
                TokenView::Variable(v) => spec_neg_var_group(v) + spec_unary_rest(ts, 1, true),
                _ => seq![t1] + spec_unary_rest(ts, 1, false),
            }
        } else {
            seq![t1] + spec_unary_rest(ts, 1, false)
        }
    } else {
        seq![t0, t1] + spec_unary_rest(ts, 1, false)
    }
}

/// Unary-minus rewriting of a whole token sequence.
pub open spec fn spec_handle_unary(ts: Seq<TokenView>) -> Seq<TokenView> {
    if ts.len() <= 1 {
        ts
    } else if ts.len() == 2 {
        spec_unary_pair(ts[0], ts[1])
    } else {
        spec_unary_start(ts)
    }
}

/// Negates a numeric literal token the way unary-minus rewriting does.
fn negate_number(num: Num) -> (r: Token)
    ensures
        r@ == spec_negate_num(num@),
{
    match num {
        Num::Integer(v) => {
            if v >= 0 {
                Token::Number(Num::Integer(-v))
            } else {
                proof {
                    reveal_strlit("-");
                }
                let mut s = "-".to_owned();
                let digits = crate::tokens::int_to_string(v);
                s.append(digits.as_str());
                proof {
                    assert(s@ =~= seq!['-'] + crate::tokens::spec_int_string(v as int));
                }
                Token::InvalidToken(s)
            }
        },
        Num::Decimal(d) => {
            if !d.neg {
                Token::Number(
                    Num::Decimal(
                        crate::tokens::DecimalLit {
                            neg: true,
                            int_part: d.int_part,
                            frac_part: d.frac_part,
                        },
                    ),
                )
            } else {
                proof {
                    reveal_strlit("-");
                }
                let ghost dv = d@;
                let tmp = Token::Number(Num::Decimal(d));
                let rendered = tmp.render();
                let mut s = "-".to_owned();
                s.append(rendered.as_str());
                proof {
                    assert(s@ =~= seq!['-'] + crate::tokens::spec_render_num(
                        NumView::Decimal(dv),
                    ));
                }
                Token::InvalidToken(s)
            }
        },
    }
}

/// Pushes `( -1 * <variable> )` onto `out`.
fn push_neg_var_group(out: &mut Vec<Token>, name: String)
    ensures
        views(final(out)@) =~= views(old(out)@) + spec_neg_var_group(name@),
{
    let ghost before = views(out@);
    out.push(Token::Paren(ParenType::OpenParen));
    out.push(Token::Number(Num::Integer(-1)));
    out.push(Token::Operator(Op::Mult));
    out.push(Token::Variable(name));
    out.push(Token::Paren(ParenType::CloseParen));
    proof {
        assert(views(out@) =~= before + spec_neg_var_group(out@[out@.len() - 2]->Variable_0@));
    }
}

impl AST {
    /// Rewrites the first window of a sequence of three or more tokens:
    /// the tokens it emits, and whether the window consumed the token that
    /// the next window would otherwise rewrite.
    #[verifier::rlimit(60)]
    fn rewrite_first_window(tokens: &Vec<Token>) -> (r: (Vec<Token>, bool))
        requires
            tokens@.len() >= 3,
        ensures
            spec_unary_start(views(tokens@)) == views(r.0@) + spec_unary_rest(
                views(tokens@),
                1,
                r.1,
            ),
    {
        let ghost ts = views(tokens@);
        let mut out: Vec<Token> = Vec::new();
        let mut skip = false;
        let ghost mut delta: Seq<TokenView> = Seq::empty();
        let t0 = tokens[0].clone();
        let t1 = tokens[1].clone();
        let ghost v0 = t0@;
        let ghost v1 = t1@;
        proof {
            assert(v0 == ts[0] && v1 == ts[1]);
        }
        let is_invalid_start = match &t0 {
            Token::InvalidToken(_) => true,
            _ => false,
        };
        let t0_is_anchor = match &t0 {
            Token::Operator(_) => true,
            Token::Paren(ParenType::OpenParen) => true,
            _ => false,
        };
        let t1_is_sub = match &t1 {
            Token::Operator(Op::Sub) => true,
            _ => false,
        };
        proof {
            assert(t0_is_anchor == (ts[0] is Operator || ts[0] == TokenView::Paren(
                ParenType::OpenParen,
            )));
            assert(t1_is_sub == (ts[1] == TokenView::Operator(Op::Sub)));
        }
        if t0_is_anchor && t1_is_sub {
            let t2 = tokens[2].clone();
            let ghost v2 = t2@;
            proof {
                assert(v2 == ts[2]);
            }
            match t2 {
                Token::Number(num) => {
                    let ghost nv = num@;
                    out.push(t0);
                    out.push(negate_number(num));
                    skip = true;
                    proof {
                        delta = seq![v0, spec_negate_num(nv)];
                    }
                },
                Token::Paren(ParenType::OpenParen) => {
                    out.push(t0);
                    out.push(Token::Number(Num::Integer(-1)));
                    proof {
                        delta = seq![v0, spec_neg_one()];
                    }
                },
                Token::Variable(name) => {
                    let ghost vn = name@;
                    out.push(t0);
                    push_neg_var_group(&mut out, name);
                    skip = true;
                    proof {
                        delta = seq![v0] + spec_neg_var_group(vn);
                    }
                },
                _ => {
                    out.push(t0);
                    out.push(t1);
                    proof {
                        delta = seq![v0, v1];
                    }
                },
            }
        } else {
            match (t0, t1) {
                (Token::Operator(Op::Sub), Token::Paren(ParenType::OpenParen)) => {
                    out.push(Token::Number(Num::Integer(-1)));
                    out.push(Token::Paren(ParenType::OpenParen));
                    proof {
                        delta = seq![spec_neg_one(), v1];
                    }
                },
                (Token::Operator(Op::Sub), Token::Number(num)) => {
                    let ghost nv = num@;
                    out.push(negate_number(num));
                    proof {
                        delta = seq![spec_negate_num(nv)];
                    }
                },
                (Token::Operator(Op::Sub), Token::Variable(name)) => {
                    let ghost vn = name@;
                    push_neg_var_group(&mut out, name);
                    proof {
                        delta = spec_neg_var_group(vn);
                    }
                },
                (a, b) => {
                    if is_invalid_start {
                        let t2 = tokens[2].clone();
                        let ghost v2 = t2@;
                        proof {
                            assert(v2 == ts[2]);
                        }
                        let b_is_sub = match &b {
                            Token::Operator(Op::Sub) => true,
                            _ => false,
                        };
                        if b_is_sub {
                            match t2 {
                                Token::Number(num) => {
                                    let ghost nv = num@;
                                    out.push(negate_number(num));
                                    skip = true;
                                    proof {
                                        delta = seq![spec_negate_num(nv)];
                                    }
                                },
                                Token::Paren(ParenType::OpenParen) => {
                                    out.push(Token::Number(Num::Integer(-1)));
                                    proof {
                                        delta = seq![spec_neg_one()];
                                    }
                                },
                                Token::Variable(name) => {
                                    let ghost vn = name@;
                                    push_neg_var_group(&mut out, name);
                                    skip = true;
                                    proof {
                                        delta = spec_neg_var_group(vn);
                                    }
                                },
                                _ => {
                                    out.push(b);
                                    proof {
                                        delta = seq![v1];
                                    }
                                },
                            }
                        } else {
                            out.push(b);
                            proof {
                                delta = seq![v1];
                            }
                        }
                    } else {
                        out.push(a);
                        out.push(b);
                        proof {
                            delta = seq![v0, v1];
                        }
                    }
                },
            }
        }
        proof {
            assert(views(out@) =~= delta);
            assert(spec_unary_start(ts) == delta + spec_unary_rest(ts, 1, skip));
        }
        (out, skip)
    }

    /// Rewrites every unary minus — one at the start of the expression, or
    /// one straight after an operator or an open parenthesis — into an
    /// explicit value: a negated number literal, `-1` before a group, or
    /// `( -1 * <variable> )` around a variable.
    #[verifier::rlimit(100)]
    pub fn handle_unary_minus(tokens: &Vec<Token>) -> (r: Vec<Token>)
        ensures
            views(r@) == spec_handle_unary(views(tokens@)),
    {
        let ghost ts = views(tokens@);
        let n = tokens.len();
        let mut out: Vec<Token> = Vec::new();
        if n == 0 {
            proof {
                assert(views(out@) =~= ts);
            }
            return out;
        }
        if n == 1 {
            out.push(tokens[0].clone());
            proof {
                assert(views(out@) =~= ts);
            }
            return out;
        }
        if n == 2 {
            let t0 = tokens[0].clone();
            let t1 = tokens[1].clone();
            let ghost v0 = t0@;
            let ghost v1 = t1@;
            match (t0, t1) {
                (Token::Operator(Op::Sub), Token::Paren(ParenType::OpenParen)) => {
                    out.push(Token::Number(Num::Integer(-1)));
                    out.push(Token::Paren(ParenType::OpenParen));
                },
                (Token::Operator(Op::Sub), Token::Number(num)) => {
                    out.push(negate_number(num));
                },
                (Token::Operator(Op::Sub), Token::Variable(name)) => {
                    push_neg_var_group(&mut out, name);
                },
                (a, b) => {
                    out.push(a);
                    out.push(b);
                },
            }
            proof {
                assert(views(out@) =~= spec_unary_pair(v0, v1));
            }
            return out;
        }
        // The first window covers the first two tokens; every later window
        // rewrites the token after its position.
        let (mut out, mut skip) = Self::rewrite_first_window(tokens);
        let ghost mut delta: Seq<TokenView> = Seq::empty();
        proof {
            assert(views(out@) + spec_unary_rest(ts, 1, skip) =~= spec_handle_unary(ts));
        }
        let mut i: usize = 1;
        while i + 2 < n
            invariant
                1 <= i,
                i + 2 <= n,
                n == ts.len(),
                n == tokens@.len(),
                views(out@) + spec_unary_rest(ts, i as int, skip) =~= spec_handle_unary(ts),
            decreases n - i,
        {
            let ghost out_before = views(out@);
            let ghost skip_before = skip;
            if skip {
                skip = false;
                proof {
                    delta = Seq::empty();
                }
            } else {
                let w0_is_anchor = match &tokens[i] {
                    Token::Operator(_) => true,
                    Token::Paren(ParenType::OpenParen) => true,
                    _ => false,
                };
                let w1_is_sub = match &tokens[i + 1] {
                    Token::Operator(Op::Sub) => true,
                    _ => false,
                };
                proof {
                    assert(ts[i as int] == tokens@[i as int]@);
                    assert(ts[i + 1] == tokens@[i + 1]@);
                    assert(ts[i + 2] == tokens@[i + 2]@);
                    assert(w0_is_anchor == (ts[i as int] is Operator || ts[i as int]
                        == TokenView::Paren(ParenType::OpenParen)));
                    assert(w1_is_sub == (ts[i + 1] == TokenView::Operator(Op::Sub)));
                }
                if w0_is_anchor && w1_is_sub {
                    let w2 = tokens[i + 2].clone();
                    let ghost v2 = w2@;
                    match w2 {
                        Token::Number(num) => {
                            let ghost nv = num@;
                            out.push(negate_number(num));
                            skip = true;
                            proof {
                                delta = seq![spec_negate_num(nv)];
                            }
                        },
                        Token::Paren(ParenType::OpenParen) => {
                            out.push(Token::Number(Num::Integer(-1)));
                            proof {
                                delta = seq![spec_neg_one()];
                            }
                        },
                        Token::Variable(name) => {
                            let ghost vn = name@;
                            push_neg_var_group(&mut out, name);
                            skip = true;
                            proof {
                                delta = spec_neg_var_group(vn);
                            }
                        },
                        _ => {
                            out.push(tokens[i + 1].clone());
                            proof {
                                delta = seq![ts[i + 1]];
                            }
                        },
                    }
                } else {
                    out.push(tokens[i + 1].clone());
                    proof {
                        delta = seq![ts[i + 1]];
                    }
                }
            }
            proof {
                assert(views(out@) =~= out_before + delta);
                assert(spec_unary_rest(ts, i as int, skip_before) == delta + spec_unary_rest(
                    ts,
                    i + 1,
                    skip,
                ));
                assert((out_before + delta) + spec_unary_rest(ts, i + 1, skip) =~= out_before + (
                delta + spec_unary_rest(ts, i + 1, skip)));
            }
            i += 1;
        }
        if !skip {
            out.push(tokens[n - 1].clone());
        }
        proof {
            assert(views(out@) =~= spec_handle_unary(ts));
        }
        out
    }
}

/// A token annotated with the precedence weight of its nesting level.
#[derive(Debug)]
pub struct WeightedToken {
    token: Token,
    weight: i64,
}

/// The mathematical value of a `WeightedToken`.
pub struct WeightedTokenView {
    pub token: TokenView,
    pub weight: int,
}

impl View for WeightedToken {
    type V = WeightedTokenView;

    closed spec fn view(&self) -> WeightedTokenView {
        WeightedTokenView { token: self.token@, weight: self.weight as int }
    }
}

/// The views of a weighted token sequence.
pub open spec fn weighted_views(s: Seq<WeightedToken>) -> Seq<WeightedTokenView> {
    s.map_values(|w: WeightedToken| w@)
}

/// How much deeper one level of parenthesis nesting weighs.
pub open spec fn spec_weight_offset() -> int {
    3
}

/// Where parenthesis weighting inserts an implicit multiplication: between
/// a value or a closing parenthesis and an opening one, and between a
/// closing parenthesis and a value.  `new_level` is the nesting level
/// after the current token adjusted it; the result is the weight the
/// inserted multiplication gets.
pub open spec fn spec_implied_multiply(
    prev: Option<TokenView>,
    tok: TokenView,
    new_level: int,
) -> Option<int> {
    match (prev, tok) {
        (Some(TokenView::Number(_)), TokenView::Paren(ParenType::OpenParen)) => Some(
            new_level + spec_weight_offset(),
        ),
        (Some(TokenView::Variable(_)), TokenView::Paren(ParenType::OpenParen)) => Some(
            new_level + spec_weight_offset(),
        ),
        (
            Some(TokenView::Paren(ParenType::CloseParen)),
            TokenView::Paren(ParenType::OpenParen),
        ) => Some(new_level + spec_weight_offset()),
        (Some(TokenView::Paren(ParenType::CloseParen)), TokenView::Number(_)) => Some(new_level),
        (Some(TokenView::Paren(ParenType::CloseParen)), TokenView::Variable(_)) => Some(new_level),
        _ => None,
    }
}

/// Parenthesis weighting from position `i` on, carrying the nesting
/// level, the stack of levels at open parentheses, the previous token and
/// the output so far.  Parentheses adjust the level and leave the output;
/// every other token is emitted with the current level as its weight.
pub open spec fn spec_process_parens_from(
    ts: Seq<TokenView>,
    i: int,
    level: int,
    pstack: Seq<int>,
    prev: Option<TokenView>,
    acc: Seq<WeightedTokenView>,
) -> Result<Seq<WeightedTokenView>, ParseError>
    decreases ts.len() - i,
{
    if i < 0 || i >= ts.len() {
        if level > 0 {
            Err(ParseError::ExtraParen)
        } else if level < 0 {
            Err(ParseError::MissingParen)
        } else {
            Ok(acc)
        }
    } else {
        let tok = ts[i];
        match tok {
            TokenView::Paren(ParenType::OpenParen) => {
                let level2 = level - spec_weight_offset();
                let acc2 = match spec_implied_multiply(prev, tok, level2) {
                    Some(w) => acc.push(
                        WeightedTokenView { token: TokenView::Operator(Op::Mult), weight: w },
                    ),
                    None => acc,
                };
                spec_process_parens_from(ts, i + 1, level2, pstack.push(level2), Some(tok), acc2)
            },
            TokenView::Paren(ParenType::CloseParen) => {
                if pstack.len() == 0 {
                    Err(ParseError::ExtraParen)
                } else if pstack.last() != level {
                    Err(ParseError::ExtraParen)
                } else {
                    spec_process_parens_from(
                        ts,
                        i + 1,
                        level + spec_weight_offset(),
                        pstack.drop_last(),
                        Some(tok),
                        acc,
                    )
                }
            },
            _ => {
                let acc2 = match spec_implied_multiply(prev, tok, level) {
                    Some(w) => acc.push(
                        WeightedTokenView { token: TokenView::Operator(Op::Mult), weight: w },
                    ),
                    None => acc,
                };
                spec_process_parens_from(
                    ts,
                    i + 1,
                    level,
                    pstack,
                    Some(tok),
                    acc2.push(WeightedTokenView { token: tok, weight: level }),
                )
            },
        }
    }
}

/// Parenthesis weighting of a whole token sequence: each non-parenthesis
/// token tagged with its nesting weight, implicit multiplications
/// inserted, and mismatched parentheses reported.
pub open spec fn spec_process_parens(ts: Seq<TokenView>) -> Result<
    Seq<WeightedTokenView>,
    ParseError,
> {
    spec_process_parens_from(ts, 0, 0, Seq::empty(), None, Seq::empty())
}

impl AST {
    /// Tags every non-parenthesis token with a weight for its parenthesis
    /// nesting level, inserts the implicit multiplications that adjacency
    /// implies (`10(2+3)`, `(2+3)10`), and reports mismatched parentheses.
    pub fn process_parens(tokens: &Vec<Token>) -> (r: Result<Vec<WeightedToken>, ParseError>)
        requires
            tokens@.len() < 0x1000_0000_0000_0000,
        ensures
            match r {
                Ok(v) => spec_process_parens(views(tokens@)) == Ok::<
                    Seq<WeightedTokenView>,
                    ParseError,
                >(weighted_views(v@)),
                Err(e) => spec_process_parens(views(tokens@)) == Err::<
                    Seq<WeightedTokenView>,
                    ParseError,
                >(e),
            },
            r is Ok ==> forall|k: int|
                0 <= k < r->Ok_0@.len() ==> -3 * tokens@.len() <= (#[trigger] r->Ok_0@[k])@.weight
                    <= 3 * tokens@.len(),
    {
        let ghost ts = views(tokens@);
        let n = tokens.len();
        let mut level: i64 = 0;
        let mut weighted_tokens: Vec<WeightedToken> = Vec::new();
        let mut paren_stack: Vec<i64> = Vec::new();
        let mut previous: Option<Token> = None;
        let mut i: usize = 0;
        proof {
            assert(weighted_views(weighted_tokens@) =~= Seq::<WeightedTokenView>::empty());
            assert(paren_stack@.map_values(|l: i64| l as int) =~= Seq::<int>::empty());
        }
        while i < n
            invariant
                i <= n,
                n == ts.len(),
                n == tokens@.len(),
                n < 0x1000_0000_0000_0000,
                -3 * (i as int) <= level <= 3 * (i as int),
                forall|k: int|
                    0 <= k < weighted_tokens@.len() ==> -3 * (i as int) <= (
                    #[trigger] weighted_tokens@[k])@.weight <= 3 * (i as int),
                spec_process_parens(ts) == spec_process_parens_from(
                    ts,
                    i as int,
                    level as int,
                    paren_stack@.map_values(|l: i64| l as int),
                    match previous {
                        Some(p) => Some(p@),
                        None => None::<TokenView>,
                    },
                    weighted_views(weighted_tokens@),
                ),
            decreases n - i,
        {
            let ghost acc_before = weighted_views(weighted_tokens@);
            let ghost pstack_before = paren_stack@.map_values(|l: i64| l as int);
            let ghost prev_before = match &previous {
                Some(p) => Some(p@),
                None => None::<TokenView>,
            };
            let tok = tokens[i].clone();
            let ghost tv = tok@;
            proof {
                assert(tv == ts[i as int]);
            }
            let is_open = match &tok {
                Token::Paren(ParenType::OpenParen) => true,
                _ => false,
            };
            let is_close = match &tok {
                Token::Paren(ParenType::CloseParen) => true,
                _ => false,
            };
            let implied_after = Self::implied_multiply_weight(
                &previous,
                &tok,
                if is_open {
                    level - 3
                } else {
                    level
                },
            );
            if is_open {
                level = level - 3;
                paren_stack.push(level);
                if let Some(w) = implied_after {
                    weighted_tokens.push(
                        WeightedToken { token: Token::Operator(Op::Mult), weight: w },
                    );
                }
                proof {
                    assert(paren_stack@.map_values(|l: i64| l as int) =~= pstack_before.push(
                        level as int,
                    ));
                    if implied_after is Some {
                        assert(weighted_views(weighted_tokens@) =~= acc_before.push(
                            WeightedTokenView {
                                token: TokenView::Operator(Op::Mult),
                                weight: implied_after->Some_0 as int,
                            },
                        ));
                    }
                }
            } else if is_close {
                let popped = paren_stack.pop();
                match popped {
                    None => {
                        proof {
                            assert(pstack_before.len() == 0);
                        }
                        return Err(ParseError::ExtraParen);
                    },
                    Some(p) => {
                        proof {
                            assert(pstack_before.last() == p as int);
                            assert(paren_stack@.map_values(|l: i64| l as int)
                                =~= pstack_before.drop_last());
                        }
                        if p != level {
                            return Err(ParseError::ExtraParen);
                        }
                        level = level + 3;
                    },
                }
            } else {
                if let Some(w) = implied_after {
                    weighted_tokens.push(
                        WeightedToken { token: Token::Operator(Op::Mult), weight: w },
                    );
                    proof {
                        assert(weighted_views(weighted_tokens@) =~= acc_before.push(
                            WeightedTokenView {
                                token: TokenView::Operator(Op::Mult),
                                weight: w as int,
                            },
                        ));
                    }
                }
                let ghost acc_mid = weighted_views(weighted_tokens@);
                weighted_tokens.push(WeightedToken { token: tok.clone(), weight: level });
                proof {
                    assert(weighted_views(weighted_tokens@) =~= acc_mid.push(
                        WeightedTokenView { token: tv, weight: level as int },
                    ));
                }
            }
            previous = Some(tok);
            i += 1;
        }
        if level > 0 {
            Err(ParseError::ExtraParen)
        } else if level < 0 {
            Err(ParseError::MissingParen)
        } else {
            Ok(weighted_tokens)
        }
    }

    /// The weight of an implicit multiplication between `previous` and the
    /// current token, if adjacency implies one; `new_level` is the nesting
    /// level after the current token adjusted it.
    fn implied_multiply_weight(previous: &Option<Token>, tok: &Token, new_level: i64) -> (r: Option<
        i64,
    >)
        requires
            -0x4000_0000_0000_0000 < new_level < 0x4000_0000_0000_0000,
        ensures
            match spec_implied_multiply(
                match previous {
                    Some(p) => Some(p@),
                    None => None::<TokenView>,
                },
                tok@,
                new_level as int,
            ) {
                Some(w) => r == Some(w as i64) && w == r->Some_0 as int,
                None => r is None,
            },
    {
        match (previous, tok) {
            (Some(Token::Number(_)), Token::Paren(ParenType::OpenParen)) => Some(new_level + 3),
            (Some(Token::Variable(_)), Token::Paren(ParenType::OpenParen)) => Some(new_level + 3),
            (
                Some(Token::Paren(ParenType::CloseParen)),
                Token::Paren(ParenType::OpenParen),
            ) => Some(new_level + 3),
            (Some(Token::Paren(ParenType::CloseParen)), Token::Number(_)) => Some(new_level),
            (Some(Token::Paren(ParenType::CloseParen)), Token::Variable(_)) => Some(new_level),
            _ => None,
        }
    }
}

/// The effective precedence of a weighted token: additive operators rank
/// at their nesting weight, multiplicative ones one below, and values two
/// below, so the shallowest, latest, least-binding operator becomes a
/// root.  Tokens that cannot stand in a tree rank nowhere.
pub open spec fn spec_token_weight(t: WeightedTokenView) -> Option<int> {
    match t.token {
        TokenView::Paren(_) => Some(t.weight - 2),
        TokenView::Number(_) => Some(t.weight - 2),
        TokenView::Variable(_) => Some(t.weight - 2),
        TokenView::Operator(op) => match op {
            Op::Add => Some(t.weight),
            Op::Sub => Some(t.weight),
            Op::Mult => Some(t.weight - 1),
            Op::Div => Some(t.weight - 1),
        },
        _ => None,
    }
}

/// Root selection from position `i` on: the last position in `[i, e)`
/// whose effective precedence is highest, carried in `root` and `best`.
pub open spec fn spec_find_root_from(
    ts: Seq<WeightedTokenView>,
    i: int,
    e: int,
    root: int,
    best: Option<int>,
) -> int
    decreases e - i,
{
    if i >= e {
        root
    } else {
        match spec_token_weight(ts[i]) {
            Some(x) => if best is None || x >= best->Some_0 {
                spec_find_root_from(ts, i + 1, e, i, Some(x))
            } else {
                spec_find_root_from(ts, i + 1, e, root, best)
            },
            None => spec_find_root_from(ts, i + 1, e, root, best),
        }
    }
}

/// The root of the span `[s, e)`: the last token of highest effective
/// precedence, or `s` itself when the span holds no weighable token.
pub open spec fn spec_find_root(ts: Seq<WeightedTokenView>, s: int, e: int) -> int {
    spec_find_root_from(ts, s, e, s, None)
}

/// Root selection stays inside its span.
pub proof fn lemma_find_root_from_bounds(
    ts: Seq<WeightedTokenView>,
    i: int,
    e: int,
    root: int,
    best: Option<int>,
)
    ensures
        ({
            let r = spec_find_root_from(ts, i, e, root, best);
            r == root || (i <= r && r < e)
        }),
    decreases e - i,
{
    if i < e {
        match spec_token_weight(ts[i]) {
            Some(x) => {
                if best is None || x >= best->Some_0 {
                    lemma_find_root_from_bounds(ts, i + 1, e, i, Some(x));
                } else {
                    lemma_find_root_from_bounds(ts, i + 1, e, root, best);
                }
            },
            None => {
                lemma_find_root_from_bounds(ts, i + 1, e, root, best);
            },
        }
    }
}

/// The selected root is `s` itself or lies strictly inside `(s, e)`.
pub proof fn lemma_find_root_bounds(ts: Seq<WeightedTokenView>, s: int, e: int)
    ensures
        ({
            let r = spec_find_root(ts, s, e);
            r == s || (s <= r && r < e)
        }),
{
    lemma_find_root_from_bounds(ts, s, e, s, None);
}

/// The weighted measure of one span, for termination of the preorder
/// walk.
pub open spec fn spec_span_measure(sp: (int, int)) -> nat {
    if sp.1 > sp.0 {
        (2 * (sp.1 - sp.0) + 1) as nat
    } else {
        1nat
    }
}

/// The weighted measure of a span stack.
pub open spec fn spec_spans_measure(stack: Seq<(int, int)>) -> nat
    decreases stack.len(),
{
    if stack.len() == 0 {
        0nat
    } else {
        (spec_spans_measure(stack.drop_last()) + spec_span_measure(stack.last())) as nat
    }
}

/// Pushing a span adds its measure.
pub proof fn lemma_spans_measure_push(stack: Seq<(int, int)>, sp: (int, int))
    ensures
        spec_spans_measure(stack.push(sp)) == spec_spans_measure(stack) + spec_span_measure(sp),
{
    assert(stack.push(sp).drop_last() =~= stack);
    assert(stack.push(sp).last() == sp);
}

/// The preorder token emission of the tree builder: pop a span, emit its
/// root token, and push the right and left sub-spans, so that spans are
/// expanded leftmost-first.
pub open spec fn spec_phase1(
    ts: Seq<WeightedTokenView>,
    stack: Seq<(int, int)>,
    acc: Seq<TokenView>,
) -> Seq<TokenView>
    decreases spec_spans_measure(stack),
{
    if stack.len() == 0 {
        acc
    } else {
        let (s, e) = stack.last();
        let root = spec_find_root(ts, s, e);
        let acc2 = acc.push(ts[root].token);
        let st0 = stack.drop_last();
        let st1 = if root > s && root < e - 1 {
            st0.push((root + 1, e))
        } else {
            st0
        };
        let st2 = if root > s {
            st1.push((s, root))
        } else {
            st1
        };
        proof {
            lemma_find_root_bounds(ts, s, e);
            assert(spec_spans_measure(stack) == spec_spans_measure(st0) + spec_span_measure(
                (s, e),
            )) by {
                assert(stack.drop_last() == st0);
            }
            if root > s && root < e - 1 {
                lemma_spans_measure_push(st0, (root + 1, e));
                lemma_spans_measure_push(st1, (s, root));
            } else if root > s {
                lemma_spans_measure_push(st0, (s, root));
            }
        }
        spec_phase1(ts, st2, acc2)
    }
}

/// The resolution of the preorder token sequence into a tree, processed
/// back to front: an operator takes the two topmost resolved trees as its
/// children, anything else resolves to a leaf.
pub open spec fn spec_phase2(tree: Seq<TokenView>, i: int, resolved: Seq<AstView>) -> Result<
    Seq<AstView>,
    ParseError,
>
    decreases i,
{
    if i <= 0 {
        Ok(resolved)
    } else {
        let t = tree[i - 1];
        match t {
            TokenView::Operator(_) => {
                if resolved.len() < 2 {
                    Err(ParseError::InvalidExpression)
                } else {
                    let left = resolved.last();
                    let right = resolved.drop_last().last();
                    let node = AstView {
                        value: t,
                        left: Some(Box::new(left)),
                        right: Some(Box::new(right)),
                    };
                    spec_phase2(tree, i - 1, resolved.drop_last().drop_last().push(node))
                }
            },
            _ => spec_phase2(
                tree,
                i - 1,
                resolved.push(AstView { value: t, left: None, right: None }),
            ),
        }
    }
}

/// The position of the first end-of-line token, or the length.
pub open spec fn spec_first_eol(ts: Seq<WeightedTokenView>, i: int) -> int
    decreases ts.len() - i,
{
    if i < 0 || i >= ts.len() {
        ts.len() as int
    } else if ts[i].token is EOL {
        i
    } else {
        spec_first_eol(ts, i + 1)
    }
}

/// Tree construction from a weighted token sequence: the span up to the
/// first end-of-line mark is walked in preorder by root selection, and
/// the emitted tokens resolve back to front into a single tree.
pub open spec fn spec_build_tree_weighted(wts: Seq<WeightedTokenView>) -> Result<
    AstView,
    ParseError,
> {
    if wts.len() == 0 {
        Err(ParseError::NoTokens)
    } else {
        let end = spec_first_eol(wts, 0);
        let tree = spec_phase1(wts, seq![(0int, end)], Seq::empty());
        match spec_phase2(tree, tree.len() as int, Seq::empty()) {
            Err(e) => Err(e),
            Ok(resolved) => if resolved.len() == 1 {
                Ok(resolved[0])
            } else {
                Err(ParseError::InvalidExpression)
            },
        }
    }
}

/// Tree construction from a raw token sequence: unary-minus rewriting,
/// parenthesis weighting, then weighted tree construction.
pub open spec fn spec_build_tree(ts: Seq<TokenView>) -> Result<AstView, ParseError> {
    match spec_process_parens(spec_handle_unary(ts)) {
        Ok(wts) => spec_build_tree_weighted(wts),
        Err(e) => Err(e),
    }
}

impl AST {
    /// The effective precedence of a weighted token.
    pub fn get_token_weight(token: &WeightedToken) -> (r: Option<i64>)
        requires
            -0x4000_0000_0000_0000 < token@.weight < 0x4000_0000_0000_0000,
        ensures
            match spec_token_weight(token@) {
                Some(w) => r == Some(w as i64) && w == r->Some_0 as int,
                None => r is None,
            },
    {
        match &token.token {
            Token::Paren(_) => Some(token.weight - 2),
            Token::Number(_) => Some(token.weight - 2),
            Token::Variable(_) => Some(token.weight - 2),
            Token::Operator(oper) => match oper {
                Op::Add => Some(token.weight),
                Op::Sub => Some(token.weight),
                Op::Mult => Some(token.weight - 1),
                Op::Div => Some(token.weight - 1),
            },
            _ => None,
        }
    }

    /// The root of the span `[s, e)`: scanning left to right, the last
    /// token whose effective precedence is highest.
    pub fn find_root_index(tokens: &Vec<WeightedToken>, s: usize, e: usize) -> (r: usize)
        requires
            s <= e <= tokens@.len(),
            forall|k: int|
                0 <= k < tokens@.len() ==> -0x4000_0000_0000_0000 < (
                #[trigger] tokens@[k])@.weight < 0x4000_0000_0000_0000,
        ensures
            r as int == spec_find_root(weighted_views(tokens@), s as int, e as int),
            r == s || (s <= r && r < e),
    {
        let ghost ts = weighted_views(tokens@);
        let mut root_index: usize = s;
        let mut weight: i64 = i64::MIN;
        let ghost mut best: Option<int> = None;
        let mut i: usize = s;
        while i < e
            invariant
                s <= i <= e,
                s <= root_index,
                root_index == s || root_index < i,
                e <= ts.len(),
                ts.len() == tokens@.len(),
                forall|k: int|
                    0 <= k < tokens@.len() ==> -0x4000_0000_0000_0000 < (
                    #[trigger] tokens@[k])@.weight < 0x4000_0000_0000_0000,
                match best {
                    None => weight == i64::MIN,
                    Some(b) => b == weight as int && weight != i64::MIN,
                },
                spec_find_root_from(ts, i as int, e as int, root_index as int, best)
                    == spec_find_root(ts, s as int, e as int),
            decreases e - i,
        {
            proof {
                assert(ts[i as int] == tokens@[i as int]@);
            }
            match Self::get_token_weight(&tokens[i]) {
                Some(x) => {
                    if x >= weight {
                        proof {
                            assert(match best {
                                None => true,
                                Some(b) => x as int >= b,
                            });
                            best = Some(x as int);
                        }
                        weight = x;
                        root_index = i;
                        proof {
                            assert(weight != i64::MIN);
                        }
                    } else {
                        proof {
                            assert(best is Some && !((x as int) >= best->Some_0));
                        }
                    }
                },
                None => {},
            }
            i += 1;
        }
        root_index
    }
}

/// A bound on how much unary-minus rewriting can grow a suffix.
proof fn lemma_unary_rest_len(ts: Seq<TokenView>, i: int, skip: bool)
    requires
        1 <= i <= ts.len() - 2,
    ensures
        spec_unary_rest(ts, i, skip).len() <= 5 * (ts.len() - i - 1) + 1,
    decreases ts.len() - i,
{
    if i + 2 >= ts.len() {
    } else if skip {
        lemma_unary_rest_len(ts, i + 1, false);
    } else {
        lemma_unary_rest_len(ts, i + 1, false);
        lemma_unary_rest_len(ts, i + 1, true);
    }
}

/// A bound on how much unary-minus rewriting can grow a sequence.
pub proof fn lemma_unary_len(ts: Seq<TokenView>)
    ensures
        spec_handle_unary(ts).len() <= 5 * ts.len() + 5,
{
    if ts.len() >= 3 {
        lemma_unary_rest_len(ts, 1, false);
        lemma_unary_rest_len(ts, 1, true);
    }
}

impl AST {
    /// Builds the expression tree of a raw token sequence: unary minuses
    /// are rewritten into explicit values, parentheses dissolve into
    /// precedence weights with implicit multiplications inserted, and the
    /// weighted tokens are split recursively at their lowest-precedence
    /// root, later roots winning ties so that equal operators associate
    /// left to right.
    pub fn build_tree(tokens: &Vec<Token>) -> (r: Result<Box<AST>, ParseError>)
        requires
            tokens@.len() < 0x10_0000_0000_0000,
        ensures
            match r {
                Ok(t) => spec_build_tree(views(tokens@)) == Ok::<AstView, ParseError>(t@),
                Err(e) => spec_build_tree(views(tokens@)) == Err::<AstView, ParseError>(e),
            },
    {
        let rewritten = Self::handle_unary_minus(tokens);
        proof {
            lemma_unary_len(views(tokens@));
        }
        let weighted = match Self::process_parens(&rewritten) {
            Ok(w) => w,
            Err(e) => {
                return Err(e);
            },
        };
        Self::build_tree_weighted(&weighted)
    }

    /// Builds the tree of a weighted token span: a preorder walk emits
    /// each sub-span's root, and the emitted tokens resolve back to front,
    /// operators taking the two topmost resolved trees as children.
    pub fn build_tree_weighted(tokens: &Vec<WeightedToken>) -> (r: Result<Box<AST>, ParseError>)
        requires
            forall|k: int|
                0 <= k < tokens@.len() ==> -0x4000_0000_0000_0000 < (
                #[trigger] tokens@[k])@.weight < 0x4000_0000_0000_0000,
        ensures
            match r {
                Ok(t) => spec_build_tree_weighted(weighted_views(tokens@)) == Ok::<
                    AstView,
                    ParseError,
                >(t@),
                Err(e) => spec_build_tree_weighted(weighted_views(tokens@)) == Err::<
                    AstView,
                    ParseError,
                >(e),
            },
    {
        let ghost ts = weighted_views(tokens@);
        let n = tokens.len();
        if n == 0 {
            return Err(ParseError::NoTokens);
        }
        let mut end = n;
        let mut j: usize = 0;
        while j < n
            invariant
                j <= n,
                n == ts.len(),
                n == tokens@.len(),
                end == n,
                spec_first_eol(ts, 0) == spec_first_eol(ts, j as int),
            decreases n - j,
        {
            proof {
                assert(ts[j as int] == tokens@[j as int]@);
            }
            let is_eol = match &tokens[j].token {
                Token::EOL => true,
                _ => false,
            };
            if is_eol {
                end = j;
                break ;
            }
            j += 1;
        }
        proof {
            assert(end as int == spec_first_eol(ts, 0));
        }
        let ghost goal = spec_phase1(ts, seq![(0int, end as int)], Seq::empty());
        let mut tree: Vec<Token> = Vec::new();
        let mut stack: Vec<(usize, usize)> = Vec::new();
        stack.push((0, end));
        proof {
            assert(stack@.map_values(|p: (usize, usize)| (p.0 as int, p.1 as int)) =~= seq![
                (0int, end as int),
            ]);
            assert(views(tree@) =~= Seq::<TokenView>::empty());
        }
        while stack.len() != 0
            invariant
                n == ts.len(),
                n == tokens@.len(),
                n >= 1,
                end <= n,
                forall|k: int|
                    0 <= k < tokens@.len() ==> -0x4000_0000_0000_0000 < (
                    #[trigger] tokens@[k])@.weight < 0x4000_0000_0000_0000,
                forall|k: int|
                    0 <= k < stack@.len() ==> {
                        let sp = #[trigger] stack@[k];
                        sp.0 <= sp.1 <= end && sp.0 < n
                    },
                spec_phase1(
                    ts,
                    stack@.map_values(|p: (usize, usize)| (p.0 as int, p.1 as int)),
                    views(tree@),
                ) == goal,
            decreases spec_spans_measure(
                stack@.map_values(|p: (usize, usize)| (p.0 as int, p.1 as int)),
            ),
        {
            let ghost stack_before = stack@.map_values(|p: (usize, usize)| (p.0 as int, p.1 as int));
            let ghost acc_before = views(tree@);
            let top = stack.pop().unwrap();
            let (s, e) = top;
            proof {
                assert(stack_before.last() == (s as int, e as int));
                assert(stack@.map_values(|p: (usize, usize)| (p.0 as int, p.1 as int))
                    =~= stack_before.drop_last());
                lemma_find_root_bounds(ts, s as int, e as int);
            }
            let root = Self::find_root_index(tokens, s, e);
            let t = tokens[root].token.clone();
            tree.push(t);
            proof {
                assert(views(tree@) =~= acc_before.push(ts[root as int].token));
            }
            if root > s && root < e - 1 {
                stack.push((root + 1, e));
                proof {
                    assert(stack@.map_values(|p: (usize, usize)| (p.0 as int, p.1 as int))
                        =~= stack_before.drop_last().push(((root + 1) as int, e as int)));
                }
            }
            if root > s {
                let ghost mid = stack@.map_values(|p: (usize, usize)| (p.0 as int, p.1 as int));
                stack.push((s, root));
                proof {
                    assert(stack@.map_values(|p: (usize, usize)| (p.0 as int, p.1 as int))
                        =~= mid.push((s as int, root as int)));
                }
            }
            proof {
                let st0 = stack_before.drop_last();
                let ri = root as int;
                let si = s as int;
                let ei = e as int;
                assert(spec_spans_measure(stack_before) == spec_spans_measure(st0)
                    + spec_span_measure((si, ei))) by {
                    assert(stack_before.drop_last() == st0);
                }
                if ri > si && ri < ei - 1 {
                    lemma_spans_measure_push(st0, (ri + 1, ei));
                    lemma_spans_measure_push(st0.push((ri + 1, ei)), (si, ri));
                } else if ri > si {
                    lemma_spans_measure_push(st0, (si, ri));
                }
            }
        }
        let ghost tree_full = views(tree@);
        proof {
            assert(stack@.map_values(|p: (usize, usize)| (p.0 as int, p.1 as int)).len() == 0);
            assert(tree_full == goal);
        }
        let mut resolved: Vec<Box<AST>> = Vec::new();
        let ghost resolve_goal = spec_phase2(tree_full, tree_full.len() as int, Seq::empty());
        let mut i = tree.len();
        proof {
            assert(ast_views(resolved@) =~= Seq::<AstView>::empty());
        }
        while i > 0
            invariant
                i <= tree@.len(),
                tree_full == views(tree@),
                spec_phase2(tree_full, i as int, ast_views(resolved@)) == resolve_goal,
            decreases i,
        {
            i = i - 1;
            let ghost res_before = ast_views(resolved@);
            proof {
                assert(tree_full[i as int] == tree@[i as int]@);
            }
            let t = tree[i].clone();
            let ghost tv = t@;
            let is_operator = match &t {
                Token::Operator(_) => true,
                _ => false,
            };
            if is_operator {
                if resolved.len() < 2 {
                    return Err(ParseError::InvalidExpression);
                }
                let left = resolved.pop().unwrap();
                let right = resolved.pop().unwrap();
                let ghost lv = left@;
                let ghost rv = right@;
                proof {
                    assert(res_before.last() == lv);
                    assert(res_before.drop_last().last() == rv);
                }
                let node = Self::new(t, Some(left), Some(right));
                let ghost nv = node@;
                resolved.push(node);
                proof {
                    assert(nv == AstView {
                        value: tv,
                        left: Some(Box::new(lv)),
                        right: Some(Box::new(rv)),
                    });
                    assert(ast_views(resolved@)
                        =~= res_before.drop_last().drop_last().push(nv));
                }
            } else {
                let node = Self::new_leaf(t);
                let ghost nv = node@;
                resolved.push(node);
                proof {
                    assert(nv == AstView { value: tv, left: None, right: None });
                    assert(ast_views(resolved@) =~= res_before.push(nv));
                }
            }
        }
        proof {
            assert(spec_phase2(tree_full, 0, ast_views(resolved@)) == Ok::<
                Seq<AstView>,
                ParseError,
            >(ast_views(resolved@)));
        }
        if resolved.len() == 1 {
            let ghost final_res = ast_views(resolved@);
            let out = resolved.pop().unwrap();
            proof {
                assert(final_res.last() == out@);
                assert(final_res =~= seq![out@]);
                assert(resolve_goal == Ok::<Seq<AstView>, ParseError>(final_res));
                assert(final_res[0] == out@);
            }
            Ok(out)
        } else {
            Err(ParseError::InvalidExpression)
        }
    }
}

/// Whether a token sequence is literal: it holds no variable reference.
pub open spec fn spec_tokens_literal(ts: Seq<TokenView>) -> bool {
    forall|i: int| 0 <= i < ts.len() ==> !((#[trigger] ts[i]) is Variable)
}

/// Whether a weighted token sequence is literal.
pub open spec fn spec_weighted_literal(ts: Seq<WeightedTokenView>) -> bool {
    forall|i: int| 0 <= i < ts.len() ==> !((#[trigger] ts[i]).token is Variable)
}

/// Concatenation keeps a token sequence literal.
proof fn lemma_literal_concat(a: Seq<TokenView>, b: Seq<TokenView>)
    requires
        spec_tokens_literal(a),
        spec_tokens_literal(b),
    ensures
        spec_tokens_literal(a + b),
{
    assert forall|i: int| 0 <= i < (a + b).len() implies !((#[trigger] (a + b)[i]) is Variable) by {
        if i < a.len() {
            assert((a + b)[i] == a[i]);
        } else {
            assert((a + b)[i] == b[i - a.len()]);
        }
    }
}

/// Negating a number never yields a variable.
proof fn lemma_negate_not_variable(n: NumView)
    ensures
        !(spec_negate_num(n) is Variable),
{
}

/// Unary-minus rewriting of a literal suffix stays literal.
proof fn lemma_unary_rest_literal(ts: Seq<TokenView>, i: int, skip: bool)
    requires
        spec_tokens_literal(ts),
        0 <= i,
        ts.len() >= 1,
    ensures
        spec_tokens_literal(spec_unary_rest(ts, i, skip)),
    decreases ts.len() - i,
{
    if i + 2 >= ts.len() {
        if !skip && ts.len() > 0 {
            assert(spec_unary_rest(ts, i, skip) =~= seq![ts.last()]);
            assert(!(ts[ts.len() - 1] is Variable));
        }
    } else if skip {
        lemma_unary_rest_literal(ts, i + 1, false);
    } else {
        lemma_unary_rest_literal(ts, i + 1, false);
        lemma_unary_rest_literal(ts, i + 1, true);
        let w1 = ts[i + 1];
        let w2 = ts[i + 2];
        assert(!(w1 is Variable));
        assert(!(w2 is Variable));
        match w2 {
            TokenView::Number(n) => {
                lemma_negate_not_variable(n);
                lemma_literal_concat(seq![spec_negate_num(n)], spec_unary_rest(ts, i + 1, true));
            },
            _ => {},
        }
        lemma_literal_concat(seq![spec_neg_one()], spec_unary_rest(ts, i + 1, false));
        lemma_literal_concat(seq![w1], spec_unary_rest(ts, i + 1, false));
    }
}

/// Unary-minus rewriting of a literal sequence stays literal.
proof fn lemma_unary_literal(ts: Seq<TokenView>)
    requires
        spec_tokens_literal(ts),
    ensures
        spec_tokens_literal(spec_handle_unary(ts)),
{
    if ts.len() == 2 {
        match ts[1] {
            TokenView::Number(n) => {
                lemma_negate_not_variable(n);
            },
            _ => {},
        }
    } else if ts.len() >= 3 {
        lemma_unary_rest_literal(ts, 1, false);
        lemma_unary_rest_literal(ts, 1, true);
        let rest_plain = spec_unary_rest(ts, 1, false);
        let rest_skip = spec_unary_rest(ts, 1, true);
        if (ts[0] is Operator || ts[0] == TokenView::Paren(ParenType::OpenParen)) && ts[1]
            == TokenView::Operator(Op::Sub) {
            match ts[2] {
                TokenView::Number(n) => {
                    lemma_negate_not_variable(n);
                    lemma_literal_concat(seq![ts[0], spec_negate_num(n)], rest_skip);
                },
                _ => {},
            }
            lemma_literal_concat(seq![ts[0], spec_neg_one()], rest_plain);
            lemma_literal_concat(seq![ts[0], ts[1]], rest_plain);
        } else {
            match ts[0] {
                TokenView::Operator(Op::Sub) => {
                    match ts[1] {
                        TokenView::Number(n) => {
                            lemma_negate_not_variable(n);
                            lemma_literal_concat(seq![spec_negate_num(n)], rest_plain);
                        },
                        _ => {
                            lemma_literal_concat(seq![spec_neg_one(), ts[1]], rest_plain);
                            lemma_literal_concat(seq![ts[0], ts[1]], rest_plain);
                        },
                    }
                },
                TokenView::InvalidToken(_) => {
                    match ts[2] {
                        TokenView::Number(n) => {
                            lemma_negate_not_variable(n);
                            lemma_literal_concat(seq![spec_negate_num(n)], rest_skip);
                        },
                        _ => {},
                    }
                    lemma_literal_concat(seq![spec_neg_one()], rest_plain);
                    lemma_literal_concat(seq![ts[1]], rest_plain);
                },
                _ => {
                    lemma_literal_concat(seq![ts[0], ts[1]], rest_plain);
                },
            }
        }
    }
}

/// Parenthesis weighting of a literal sequence stays literal.
proof fn lemma_parens_literal(
    ts: Seq<TokenView>,
    i: int,
    level: int,
    pstack: Seq<int>,
    prev: Option<TokenView>,
    acc: Seq<WeightedTokenView>,
)
    requires
        spec_tokens_literal(ts),
        spec_weighted_literal(acc),
        0 <= i,
    ensures
        spec_process_parens_from(ts, i, level, pstack, prev, acc) matches Ok(wts)
            ==> spec_weighted_literal(wts),
    decreases ts.len() - i,
{
    if i < ts.len() {
        let tok = ts[i];
        assert(!(tok is Variable));
        match tok {
            TokenView::Paren(ParenType::OpenParen) => {
                let level2 = level - spec_weight_offset();
                let acc2 = match spec_implied_multiply(prev, tok, level2) {
                    Some(w) => acc.push(
                        WeightedTokenView { token: TokenView::Operator(Op::Mult), weight: w },
                    ),
                    None => acc,
                };
                assert(spec_weighted_literal(acc2)) by {
                    assert forall|k: int| 0 <= k < acc2.len() implies !((
                    #[trigger] acc2[k]).token is Variable) by {
                        if k < acc.len() {
                            assert(acc2[k] == acc[k]);
                        }
                    }
                }
                lemma_parens_literal(ts, i + 1, level2, pstack.push(level2), Some(tok), acc2);
            },
            TokenView::Paren(ParenType::CloseParen) => {
                if pstack.len() != 0 && pstack.last() == level {
                    lemma_parens_literal(
                        ts,
                        i + 1,
                        level + spec_weight_offset(),
                        pstack.drop_last(),
                        Some(tok),
                        acc,
                    );
                }
            },
            _ => {
                let acc2 = match spec_implied_multiply(prev, tok, level) {
                    Some(w) => acc.push(
                        WeightedTokenView { token: TokenView::Operator(Op::Mult), weight: w },
                    ),
                    None => acc,
                };
                let acc3 = acc2.push(WeightedTokenView { token: tok, weight: level });
                assert(spec_weighted_literal(acc3)) by {
                    assert forall|k: int| 0 <= k < acc3.len() implies !((
                    #[trigger] acc3[k]).token is Variable) by {
                        if k < acc.len() {
                            assert(acc3[k] == acc[k]);
                        } else if k < acc2.len() {
                            assert(acc3[k] == acc2[k]);
                        }
                    }
                }
                lemma_parens_literal(ts, i + 1, level, pstack, Some(tok), acc3);
            },
        }
    }
}

/// The preorder walk over a literal weighted sequence emits literal
/// tokens.
proof fn lemma_phase1_literal(
    ts: Seq<WeightedTokenView>,
    stack: Seq<(int, int)>,
    acc: Seq<TokenView>,
)
    requires
        spec_weighted_literal(ts),
        ts.len() >= 1,
        forall|k: int|
            0 <= k < stack.len() ==> {
                let sp = #[trigger] stack[k];
                0 <= sp.0 <= sp.1 <= ts.len() && sp.0 < ts.len()
            },
        spec_tokens_literal(acc),
    ensures
        spec_tokens_literal(spec_phase1(ts, stack, acc)),
    decreases spec_spans_measure(stack),
{
    if stack.len() > 0 {
        let (s, e) = stack.last();
        let root = spec_find_root(ts, s, e);
        lemma_find_root_bounds(ts, s, e);
        assert(0 <= root < ts.len());
        let acc2 = acc.push(ts[root].token);
        assert(spec_tokens_literal(acc2)) by {
            assert forall|k: int| 0 <= k < acc2.len() implies !((
            #[trigger] acc2[k]) is Variable) by {
                if k < acc.len() {
                    assert(acc2[k] == acc[k]);
                }
            }
        }
        let st0 = stack.drop_last();
        let st1 = if root > s && root < e - 1 {
            st0.push((root + 1, e))
        } else {
            st0
        };
        let st2 = if root > s {
            st1.push((s, root))
        } else {
            st1
        };
        assert(spec_spans_measure(stack) == spec_spans_measure(st0) + spec_span_measure((s, e)))
            by {
            assert(stack.drop_last() == st0);
        }
        if root > s && root < e - 1 {
            lemma_spans_measure_push(st0, (root + 1, e));
            lemma_spans_measure_push(st1, (s, root));
        } else if root > s {
            lemma_spans_measure_push(st0, (s, root));
        }
        assert(forall|k: int|
            0 <= k < st2.len() ==> {
                let sp = #[trigger] st2[k];
                0 <= sp.0 <= sp.1 <= ts.len() && sp.0 < ts.len()
            });
        lemma_phase1_literal(ts, st2, acc2);
    }
}

/// Resolving literal tokens yields literal trees.
proof fn lemma_phase2_literal(tree: Seq<TokenView>, i: int, resolved: Seq<AstView>)
    requires
        spec_tokens_literal(tree),
        forall|k: int| 0 <= k < resolved.len() ==> spec_tree_literal(#[trigger] resolved[k]),
        i <= tree.len(),
    ensures
        spec_phase2(tree, i, resolved) matches Ok(out) ==> forall|k: int|
            0 <= k < out.len() ==> spec_tree_literal(#[trigger] out[k]),
    decreases i,
{
    if i > 0 {
        let t = tree[i - 1];
        assert(!(t is Variable));
        match t {
            TokenView::Operator(_) => {
                if resolved.len() >= 2 {
                    let left = resolved.last();
                    let right = resolved.drop_last().last();
                    let node = AstView {
                        value: t,
                        left: Some(Box::new(left)),
                        right: Some(Box::new(right)),
                    };
                    assert(spec_tree_literal(left));
                    assert(spec_tree_literal(right)) by {
                        assert(resolved.drop_last().last() == resolved[resolved.len() - 2]);
                    }
                    assert(spec_tree_literal(node));
                    let res2 = resolved.drop_last().drop_last().push(node);
                    assert forall|k: int| 0 <= k < res2.len() implies spec_tree_literal(
                        #[trigger] res2[k],
                    ) by {
                        if k < resolved.len() - 2 {
                            assert(res2[k] == resolved[k]);
                        }
                    }
                    lemma_phase2_literal(tree, i - 1, res2);
                }
            },
            _ => {
                let node = AstView { value: t, left: None, right: None };
                let res2 = resolved.push(node);
                assert forall|k: int| 0 <= k < res2.len() implies spec_tree_literal(
                    #[trigger] res2[k],
                ) by {
                    if k < resolved.len() {
                        assert(res2[k] == resolved[k]);
                    }
                }
                lemma_phase2_literal(tree, i - 1, res2);
            },
        }
    }
}

/// A tree built from a literal token sequence is literal.
pub proof fn lemma_build_tree_literal(ts: Seq<TokenView>)
    requires
        spec_tokens_literal(ts),
    ensures
        spec_build_tree(ts) matches Ok(t) ==> spec_tree_literal(t),
{
    lemma_unary_literal(ts);
    let rewritten = spec_handle_unary(ts);
    lemma_parens_literal(rewritten, 0, 0, Seq::empty(), None, Seq::empty());
    match spec_process_parens(rewritten) {
        Ok(wts) => {
            if wts.len() >= 1 {
                let end = spec_first_eol(wts, 0);
                assert(0 <= end <= wts.len()) by {
                    lemma_first_eol_bounds(wts, 0);
                }
                lemma_phase1_literal(wts, seq![(0int, end)], Seq::empty());
                let tree = spec_phase1(wts, seq![(0int, end)], Seq::empty());
                lemma_phase2_literal(tree, tree.len() as int, Seq::empty());
            }
        },
        Err(_) => {},
    }
}

/// The first end-of-line position lies within the sequence.
proof fn lemma_first_eol_bounds(ts: Seq<WeightedTokenView>, i: int)
    requires
        0 <= i <= ts.len(),
    ensures
        i <= spec_first_eol(ts, i) <= ts.len(),
    decreases ts.len() - i,
{
    if i < ts.len() && !(ts[i].token is EOL) {
        lemma_first_eol_bounds(ts, i + 1);
    }
}

/// Whether a tree is literal: it holds no variable leaf.
pub open spec fn spec_tree_literal(t: AstView) -> bool
    decreases t,
{
    &&& !(t.value is Variable)
    &&& match t.left {
        Some(l) => spec_tree_literal(*l),
        None => true,
    }
    &&& match t.right {
        Some(r) => spec_tree_literal(*r),
        None => true,
    }
}

/// Emission of a literal tree never consults the environment.
proof fn lemma_emit_env_independent(
    t: AstView,
    env1: Seq<(Seq<char>, u64)>,
    env2: Seq<(Seq<char>, u64)>,
    st: EmitState,
)
    requires
        spec_tree_literal(t),
    ensures
        spec_emit(t, env1, st) == spec_emit(t, env2, st),
    decreases t,
{
    if !st.failed {
        match t.value {
            TokenView::Operator(_) => {
                let s1 = match t.left {
                    Some(l) => {
                        lemma_emit_env_independent(*l, env1, env2, st);
                        spec_emit(*l, env1, st)
                    },
                    None => st,
                };
                match t.right {
                    Some(r) => {
                        lemma_emit_env_independent(*r, env1, env2, s1);
                    },
                    None => {},
                }
            },
            _ => {},
        }
    }
}

/// Evaluating a literal expression tree — one without variable
/// references — yields the identical arithmetic program in every
/// environment.  Since evaluation is a function of the tree and the
/// environment alone, evaluating the same literal expression twice yields
/// identical results, whatever bindings other evaluations added in
/// between.
pub proof fn lemma_literal_evaluation_idempotent(
    t: AstView,
    env1: Seq<(Seq<char>, u64)>,
    env2: Seq<(Seq<char>, u64)>,
)
    requires
        spec_tree_literal(t),
    ensures
        spec_evaluate(t, env1) == spec_evaluate(t, env2),
{
    lemma_emit_env_independent(
        t,
        env1,
        env2,
        EmitState { prog: Seq::empty(), depth: 0, failed: false },
    );
}

/// Pushing an instruction extends the depth trace by one step.
proof fn lemma_depth_trace_push(p: Seq<InstrView>, i: InstrView)
    ensures
        p.push(i).drop_last() =~= p,
        p.push(i).last() == i,
        forall|k: int| 0 <= k < p.len() ==> #[trigger] p.push(i).subrange(0, k) =~= p.subrange(
            0,
            k,
        ),
        p.push(i).subrange(0, p.len() as int) =~= p,
{
}

/// The pop budget of an operator node splits into its left child's and the
/// remainder's.
proof fn lemma_pops_split_left(t: AstView, l: AstView, rem: AstView)
    requires
        t.left == Some(Box::new(l)),
        rem == (AstView { value: t.value, left: None, right: t.right }),
    ensures
        spec_pops(t) == 1 + spec_pops(l) + spec_pops(rem),
{
}

/// The pop budget of a node with only a right child splits into the
/// child's and the bare node's.
proof fn lemma_pops_split_right(t: AstView, r: AstView, rem: AstView)
    requires
        t.left is None,
        t.right == Some(Box::new(r)),
        rem == (AstView { value: t.value, left: None, right: None }),
    ensures
        spec_pops(t) == 1 + spec_pops(r) + spec_pops(rem),
{
}

/// The pop budget of a pushed stack.
proof fn lemma_pops_sum_push(s: Seq<AstView>, t: AstView)
    ensures
        spec_pops_sum(s.push(t)) == spec_pops_sum(s) + spec_pops(t),
{
    assert(s.push(t).drop_last() =~= s);
    assert(s.push(t).last() == t);
}

} // verus!
