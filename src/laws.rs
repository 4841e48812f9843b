use vstd::prelude::*;
use crate::ast::{ElseIfBranch, Expr, Stmt, StmtModel};
use crate::environment::EnvModel;
use crate::interpreter::{
    binary_result, ev, eval, exec_chain, exec_list, exec_stmt, interpreted, lemma_eval_keeps_frames,
    HostResult,
};
use crate::error::{reported, Diag, Error, ErrorKind};
use crate::parser::p_program;
use crate::tokenizer::{scan_errors_from, scan_from, shapes};
use crate::token::{Token, TokenKind};
use crate::value::{is_nan, truthy, values_equal, Value, ValueModel};

verus! {

/// A literal that holds a value evaluates to exactly that value, and changes nothing.
pub proof fn lemma_literal_yields_its_value(v: Value, env: EnvModel)
    ensures
        eval(Expr::LiteralExpression { value: Some(v) }, env) == Some((Ok::<ValueModel, ErrorKind>(v@), env)),
{
}

/// `!!x` yields `Boolean(truthy(x))` for every value `x` that the operand evaluates to.
pub proof fn lemma_double_negation(x: Expr, outer: Token, inner: Token, env: EnvModel)
    requires
        outer.kind == TokenKind::Bang,
        inner.kind == TokenKind::Bang,
    ensures
        eval(x, env) matches Some((Ok(w), e1)) ==> eval(
            Expr::UnaryExpression {
                operator: outer,
                right: Box::new(Expr::UnaryExpression { operator: inner, right: Box::new(x) }),
            },
            env,
        ) == Some((Ok::<ValueModel, ErrorKind>(ValueModel::Boolean(truthy(w))), e1)),
{
    reveal_with_fuel(eval, 3);
}

/// `!!x` yields `Boolean(truthy(x))` whatever the host's arithmetic computes for `x`: for every
/// sequence of host results under which the operand yields `w`, the double negation yields
/// `Boolean(truthy(w))` and leaves everything else as the operand did.
pub proof fn lemma_double_negation_any_host(x: Expr, outer: Token, inner: Token, env: EnvModel, tr: Seq<HostResult>)
    requires
        outer.kind == TokenKind::Bang,
        inner.kind == TokenKind::Bang,
    ensures
        ev(x, env, tr) matches Some((Ok(w), e1, t)) ==> ev(
            Expr::UnaryExpression {
                operator: outer,
                right: Box::new(Expr::UnaryExpression { operator: inner, right: Box::new(x) }),
            },
            env,
            tr,
        ) == Some((Ok::<ValueModel, ErrorKind>(ValueModel::Boolean(truthy(w))), e1, t)),
{
    reveal_with_fuel(ev, 3);
}

/// `==` is reflexive on every value but NaN; across variants it is false except `nil == nil`;
/// `!=` is its negation.
pub proof fn lemma_equality(a: ValueModel, b: ValueModel)
    ensures
        !(a matches ValueModel::Number(n) && is_nan(n)) ==> values_equal(a, a),
        (a is Number != b is Number || a is Str != b is Str || a is Boolean != b is Boolean || a is Nil
            != b is Nil) ==> !values_equal(a, b),
        binary_result(TokenKind::EqualEqual, a, b) == Some(Ok::<ValueModel, ErrorKind>(ValueModel::Boolean(values_equal(a, b)))),
        binary_result(TokenKind::BangEqual, a, b) == Some(Ok::<ValueModel, ErrorKind>(ValueModel::Boolean(!values_equal(a, b)))),
{
}

/// In `false and E`, `E` is not evaluated: the result is `false` and the scope stack is left
/// exactly as it was, whatever `E` would do or fail with.
pub proof fn lemma_and_short_circuits(rhs: Expr, op: Token, env: EnvModel)
    requires
        op.kind == TokenKind::And,
    ensures
        eval(
            Expr::LogicalExpression {
                left: Box::new(Expr::LiteralExpression { value: Some(Value::Boolean(false)) }),
                operator: op,
                right: Box::new(rhs),
            },
            env,
        ) == Some((Ok::<ValueModel, ErrorKind>(ValueModel::Boolean(false)), env)),
{
    reveal_with_fuel(eval, 2);
}

/// Every statement leaves as many frames as it found; a block pops the frame it pushed.
pub proof fn lemma_statement_keeps_frames(s: Stmt, env: EnvModel)
    requires
        env.len() >= 1,
    ensures
        exec_stmt(s, env) matches Some((_, _, e2)) ==> e2.len() == env.len(),
    decreases s,
{
    match s {
        Stmt::ExpressionStmt { expression } => lemma_eval_keeps_frames(*expression, env),
        Stmt::AssignmentStmt { expression } => lemma_eval_keeps_frames(*expression, env),
        Stmt::PrintStmt { expression } => lemma_eval_keeps_frames(*expression, env),
        Stmt::VarDeclStmt { name, initializer } => lemma_eval_keeps_frames(initializer, env),
        Stmt::BlockStmt { statements } => {
            lemma_list_keeps_frames(statements@, env.push(seq![]));
        },
        Stmt::IfStmt { condition, then_branch, else_if_branches, else_branch } => {
            lemma_eval_keeps_frames(*condition, env);
            if let Some((Ok(v), e1)) = eval(*condition, env) {
                lemma_statement_keeps_frames(*then_branch, e1);
                lemma_chain_keeps_frames(else_if_branches@, e1);
                if let Some((false, (o, None, e2))) = exec_chain(else_if_branches@, e1) {
                    if let Some(b) = else_branch {
                        lemma_statement_keeps_frames(*b, e2);
                    }
                }
            }
        },
        _ => {},
    }
}

/// Statements run in order leave as many frames as they found.
pub proof fn lemma_list_keeps_frames(ss: Seq<Stmt>, env: EnvModel)
    requires
        env.len() >= 1,
    ensures
        exec_list(ss, env) matches Some((_, _, e2)) ==> e2.len() == env.len(),
    decreases ss,
{
    if ss.len() > 0 {
        lemma_statement_keeps_frames(ss[0], env);
        if let Some((o, None, e1)) = exec_stmt(ss[0], env) {
            lemma_list_keeps_frames(ss.drop_first(), e1);
        }
    }
}

/// The `else if` arms leave as many frames as they found.
pub proof fn lemma_chain_keeps_frames(bs: Seq<ElseIfBranch>, env: EnvModel)
    requires
        env.len() >= 1,
    ensures
        exec_chain(bs, env) matches Some((_, (_, _, e2))) ==> e2.len() == env.len(),
    decreases bs,
{
    if bs.len() > 0 {
        lemma_eval_keeps_frames(*bs[0].condition, env);
        if let Some((Ok(v), e1)) = eval(*bs[0].condition, env) {
            lemma_statement_keeps_frames(*bs[0].then_branch, e1);
            lemma_chain_keeps_frames(bs.drop_first(), e1);
        }
    }
}

/// Tokenizing is deterministic: two scans of one source place the same tokens and report the
/// same diagnostics, but for numbers that the host could not read.
pub proof fn lemma_scans_agree(source: Seq<char>, t1: Seq<Token>, t2: Seq<Token>, e1: Seq<Error>, e2: Seq<Error>)
    requires
        shapes(t1.drop_last()) == scan_from(source, 0, 1, 0),
        shapes(t2.drop_last()) == scan_from(source, 0, 1, 0),
        reported(e1) == scan_errors_from(source, 0, 1, 0),
        reported(e2) == scan_errors_from(source, 0, 1, 0),
    ensures
        shapes(t1.drop_last()) == shapes(t2.drop_last()),
        reported(e1) == reported(e2),
{
}

/// Parsing is deterministic: two parses of one token sequence give the same statements and
/// the same diagnostics.
pub proof fn lemma_parses_agree(
    tokens: Seq<Token>,
    s1: Seq<StmtModel>,
    s2: Seq<StmtModel>,
    d1: Seq<Diag>,
    d2: Seq<Diag>,
)
    requires
        s1 == p_program(tokens, 0).0 && d1 == p_program(tokens, 0).1,
        s2 == p_program(tokens, 0).0 && d2 == p_program(tokens, 0).1,
    ensures
        s1 == s2,
        d1 == d2,
{
}

/// Evaluation is deterministic: two runs of the same statements from the same scope stack,
/// where no floating-point computation decides them, print the same lines, stop with the same
/// error and leave the same scope stack.
pub proof fn lemma_runs_agree(
    ss: Seq<Stmt>,
    env: EnvModel,
    after1: EnvModel,
    after2: EnvModel,
    out1: Seq<Seq<char>>,
    out2: Seq<Seq<char>>,
    err1: Option<ErrorKind>,
    err2: Option<ErrorKind>,
)
    requires
        exec_list(ss, env) is Some,
        interpreted(ss, env, after1, out1, err1),
        interpreted(ss, env, after2, out2, err2),
    ensures
        after1 == after2,
        out1 == out2,
        err1 == err2,
{
}

} // verus!
