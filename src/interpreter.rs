use vstd::prelude::*;
use crate::ast::{ElseIfBranch, Expr, Stmt};
use crate::environment::{assign, declare, frame_get, lookup, EnvModel, Environment};
use crate::error::{Error, ErrorKind};
use crate::token::{Token, TokenKind};
use crate::value::{
    display_text, is_zero, neg_bits, num_le, num_lt, truthy, values_equal, Arithmetic, Number,
    Value, ValueModel,
};

verus! {

/// The outcome of an evaluation step: a value, or the kind of the error that stopped it.
pub type Outcome = Result<ValueModel, ErrorKind>;

/// What an executable result amounts to.
pub open spec fn outcome(r: Result<Value, Error>) -> Outcome {
    match r {
        Ok(v) => Ok(v@),
        Err(e) => Err(e.kind),
    }
}

/// `-v` and `!v`. `None` never occurs: negation flips the sign bit.
pub open spec fn unary_result(op: TokenKind, v: ValueModel) -> Outcome {
    if op == TokenKind::Minus {
        match v {
            ValueModel::Number(n) => Ok(ValueModel::Number(neg_bits(n))),
            _ => Err(ErrorKind::TypeMismatch),
        }
    } else if op == TokenKind::Bang {
        Ok(ValueModel::Boolean(!truthy(v)))
    } else {
        Err(ErrorKind::Unimplemented)
    }
}

/// A binary operator on two values; `None` where the result is a rounded floating-point
/// computation or the formatting of a number, which the host's arithmetic decides.
pub open spec fn binary_result(op: TokenKind, l: ValueModel, r: ValueModel) -> Option<Outcome> {
    let both_numbers = l is Number && r is Number;
    if op == TokenKind::Plus {
        match (l, r) {
            (ValueModel::Str(a), ValueModel::Str(b)) => Some(Ok(ValueModel::Str(a + b))),
            (ValueModel::Number(_), ValueModel::Number(_)) => None,
            (ValueModel::Str(_), ValueModel::Number(_)) => None,
            (ValueModel::Number(_), ValueModel::Str(_)) => None,
            _ => Some(Err(ErrorKind::TypeMismatch)),
        }
    } else if op == TokenKind::Minus || op == TokenKind::Star {
        if both_numbers {
            None
        } else {
            Some(Err(ErrorKind::TypeMismatch))
        }
    } else if op == TokenKind::Slash {
        match (l, r) {
            (ValueModel::Number(_), ValueModel::Number(b)) => if is_zero(b) {
                Some(Err(ErrorKind::DivideByZero))
            } else {
                None
            },
            _ => Some(Err(ErrorKind::TypeMismatch)),
        }
    } else if op == TokenKind::EqualEqual {
        Some(Ok(ValueModel::Boolean(values_equal(l, r))))
    } else if op == TokenKind::BangEqual {
        Some(Ok(ValueModel::Boolean(!values_equal(l, r))))
    } else if op == TokenKind::Greater || op == TokenKind::GreaterEqual || op == TokenKind::Less
        || op == TokenKind::LessEqual {
        match (l, r) {
            (ValueModel::Number(a), ValueModel::Number(b)) => Some(
                Ok(
                    ValueModel::Boolean(
                        if op == TokenKind::Greater {
                            num_lt(b, a)
                        } else if op == TokenKind::GreaterEqual {
                            num_le(b, a)
                        } else if op == TokenKind::Less {
                            num_lt(a, b)
                        } else {
                            num_le(a, b)
                        },
                    ),
                ),
            ),
            _ => Some(Err(ErrorKind::TypeMismatch)),
        }
    } else {
        Some(Err(ErrorKind::Unimplemented))
    }
}

/// The value that `and` / `or` yields from an operand that decided it.
pub open spec fn logical_value(v: ValueModel) -> ValueModel {
    if truthy(v) {
        v
    } else {
        ValueModel::Boolean(false)
    }
}

/// Evaluation of an expression in a scope stack: its outcome and the scope stack after it.
/// `None` where a step needs the host's floating-point arithmetic or number formatting.
pub open spec fn eval(e: Expr, env: EnvModel) -> Option<(Outcome, EnvModel)>
    decreases e,
{
    match e {
        Expr::LiteralExpression { value } => Some(
            (
                Ok(
                    match value {
                        Some(v) => v@,
                        None => ValueModel::Nil,
                    },
                ),
                env,
            ),
        ),
        Expr::GroupingExpression { expression } => eval(*expression, env),
        Expr::VariableResolutionExpression { name } => Some(
            (
                match lookup(env, name.lexeme@) {
                    Some(v) => Ok(v),
                    None => Err(ErrorKind::UnknownIdentifier),
                },
                env,
            ),
        ),
        Expr::AssignmentExpression { name, value } => match eval(*value, env) {
            Some((Ok(v), env1)) => if lookup(env1, name.lexeme@) is Some {
                Some((Ok(v), assign(env1, name.lexeme@, v)))
            } else {
                Some((Err(ErrorKind::UnknownIdentifier), env1))
            },
            other => other,
        },
        Expr::UnaryExpression { operator, right } => match eval(*right, env) {
            Some((Ok(v), env1)) => Some((unary_result(operator.kind, v), env1)),
            other => other,
        },
        Expr::BinaryExpression { left, operator, right } => match eval(*left, env) {
            Some((Ok(a), env1)) => match eval(*right, env1) {
                Some((Ok(b), env2)) => match binary_result(operator.kind, a, b) {
                    Some(res) => Some((res, env2)),
                    None => None,
                },
                other => other,
            },
            other => other,
        },
        Expr::LogicalExpression { left, operator, right } => match eval(*left, env) {
            Some((Ok(a), env1)) => if operator.kind == TokenKind::Or && truthy(a) {
                Some((Ok(a), env1))
            } else if operator.kind == TokenKind::And && !truthy(a) {
                Some((Ok(ValueModel::Boolean(false)), env1))
            } else if operator.kind == TokenKind::Or || operator.kind == TokenKind::And {
                match eval(*right, env1) {
                    Some((Ok(b), env2)) => Some((Ok(logical_value(b)), env2)),
                    other => other,
                }
            } else {
                Some((Err(ErrorKind::Unimplemented), env1))
            },
            other => other,
        },
        _ => Some((Err(ErrorKind::Unimplemented), env)),
    }
}

/// Storing into a scope stack never changes how many frames it has.
pub proof fn lemma_assign_keeps_frames(env: EnvModel, name: Seq<char>, v: ValueModel)
    ensures
        assign(env, name, v).len() == env.len(),
    decreases env.len(),
{
    if env.len() > 0 && frame_get(env.last(), name) is None {
        lemma_assign_keeps_frames(env.drop_last(), name, v);
    }
}

/// Storing into a name that no frame binds changes nothing.
pub proof fn lemma_assign_unbound(env: EnvModel, name: Seq<char>, v: ValueModel)
    ensures
        lookup(env, name) is None ==> assign(env, name, v) == env,
    decreases env.len(),
{
    if env.len() > 0 && frame_get(env.last(), name) is None {
        lemma_assign_unbound(env.drop_last(), name, v);
        assert(env.drop_last().push(env.last()) =~= env);
    }
}

/// Every evaluation leaves as many frames as it found.
pub proof fn lemma_eval_keeps_frames(e: Expr, env: EnvModel)
    ensures
        eval(e, env) matches Some((_, env2)) ==> env2.len() == env.len(),
    decreases e,
{
    match e {
        Expr::GroupingExpression { expression } => lemma_eval_keeps_frames(*expression, env),
        Expr::AssignmentExpression { name, value } => {
            lemma_eval_keeps_frames(*value, env);
            if let Some((Ok(v), env1)) = eval(*value, env) {
                lemma_assign_keeps_frames(env1, name.lexeme@, v);
            }
        },
        Expr::UnaryExpression { operator, right } => lemma_eval_keeps_frames(*right, env),
        Expr::BinaryExpression { left, operator, right } => {
            lemma_eval_keeps_frames(*left, env);
            if let Some((Ok(a), env1)) = eval(*left, env) {
                lemma_eval_keeps_frames(*right, env1);
            }
        },
        Expr::LogicalExpression { left, operator, right } => {
            lemma_eval_keeps_frames(*left, env);
            if let Some((Ok(a), env1)) = eval(*left, env) {
                lemma_eval_keeps_frames(*right, env1);
            }
        },
        _ => {},
    }
}

/// The effect of running statements: the lines printed, the error that stopped the run if
/// any, and the scope stack after it.
pub type Run = (Seq<Seq<char>>, Option<ErrorKind>, EnvModel);

/// A run whose effect comes after the lines `o` that were already printed.
pub open spec fn after(o: Seq<Seq<char>>, r: Option<Run>) -> Option<Run> {
    match r {
        Some((o2, err, e)) => Some((o + o2, err, e)),
        None => None,
    }
}

/// Execution of one statement. `None` where a step needs the host's floating-point
/// arithmetic or number formatting.
pub open spec fn exec_stmt(s: Stmt, env: EnvModel) -> Option<Run>
    decreases s,
{
    match s {
        Stmt::ExpressionStmt { expression } => match eval(*expression, env) {
            Some((Ok(_), e1)) => Some((seq![], None, e1)),
            Some((Err(k), e1)) => Some((seq![], Some(k), e1)),
            None => None,
        },
        Stmt::AssignmentStmt { expression } => match eval(*expression, env) {
            Some((Ok(_), e1)) => Some((seq![], None, e1)),
            Some((Err(k), e1)) => Some((seq![], Some(k), e1)),
            None => None,
        },
        Stmt::PrintStmt { expression } => match eval(*expression, env) {
            Some((Ok(v), e1)) => if v is Number {
                None
            } else {
                Some((seq![display_text(v)], None, e1))
            },
            Some((Err(k), e1)) => Some((seq![], Some(k), e1)),
            None => None,
        },
        Stmt::VarDeclStmt { name, initializer } => match eval(initializer, env) {
            Some((Ok(v), e1)) => if frame_get(e1.last(), name.lexeme@) is Some {
                Some((seq![], Some(ErrorKind::AlreadyDeclared), e1))
            } else {
                Some((seq![], None, declare(e1, name.lexeme@, v)))
            },
            Some((Err(k), e1)) => Some((seq![], Some(k), e1)),
            None => None,
        },
        Stmt::BlockStmt { statements } => match exec_list(statements@, env.push(seq![])) {
            Some((o, err, e1)) => Some((o, err, e1.drop_last())),
            None => None,
        },
        Stmt::IfStmt { condition, then_branch, else_if_branches, else_branch } => match eval(
            *condition,
            env,
        ) {
            Some((Ok(v), e1)) => if truthy(v) {
                exec_stmt(*then_branch, e1)
            } else {
                match exec_chain(else_if_branches@, e1) {
                    Some((false, (o, None, e2))) => match else_branch {
                        Some(b) => after(o, exec_stmt(*b, e2)),
                        None => Some((o, None, e2)),
                    },
                    Some((_, run)) => Some(run),
                    None => None,
                }
            },
            Some((Err(k), e1)) => Some((seq![], Some(k), e1)),
            None => None,
        },
        Stmt::Invalid { .. } => Some((seq![], Some(ErrorKind::UnexpectedToken), env)),
        _ => Some((seq![], Some(ErrorKind::Unimplemented), env)),
    }
}

/// Execution of statements in order, stopping at the first error.
pub open spec fn exec_list(ss: Seq<Stmt>, env: EnvModel) -> Option<Run>
    decreases ss,
{
    if ss.len() == 0 {
        Some((seq![], None, env))
    } else {
        match exec_stmt(ss[0], env) {
            Some((o, None, e1)) => after(o, exec_list(ss.drop_first(), e1)),
            other => other,
        }
    }
}

/// The `else if` arms in order: whether one was taken (or failed), and the run so far.
pub open spec fn exec_chain(bs: Seq<ElseIfBranch>, env: EnvModel) -> Option<(bool, Run)>
    decreases bs,
{
    if bs.len() == 0 {
        Some((false, (seq![], None, env)))
    } else {
        match eval(*bs[0].condition, env) {
            Some((Ok(v), e1)) => if truthy(v) {
                match exec_stmt(*bs[0].then_branch, e1) {
                    Some(run) => Some((true, run)),
                    None => None,
                }
            } else {
                exec_chain(bs.drop_first(), e1)
            },
            Some((Err(k), e1)) => Some((true, (seq![], Some(k), e1))),
            None => None,
        }
    }
}

/// What a binary operator may yield for every result the host's arithmetic can give: exactly
/// `binary_result` where that decides it; otherwise some number for two numbers, and for a
/// string with a number, some string that begins (or ends) with the string operand.
pub open spec fn binary_rel(op: TokenKind, l: ValueModel, r: ValueModel, res: Outcome) -> bool {
    match binary_result(op, l, r) {
        Some(o) => res == o,
        None => match (l, r) {
            (ValueModel::Number(_), ValueModel::Number(_)) => res matches Ok(ValueModel::Number(_)),
            (ValueModel::Str(a), ValueModel::Number(_)) => res matches Ok(ValueModel::Str(t)) && t.len()
                >= a.len() && t.subrange(0, a.len() as int) == a,
            (ValueModel::Number(_), ValueModel::Str(b)) => res matches Ok(ValueModel::Str(t)) && t.len()
                >= b.len() && t.subrange(t.len() - b.len(), t.len() as int) == b,
            _ => false,
        },
    }
}

/// One result of the host's arithmetic: a computed number, or the text of a formatted number.
pub enum HostResult {
    Num(u64),
    Text(Seq<char>),
}

/// A binary operator with the host's results taken, in order, from `tr`: the outcome and what
/// is left of `tr`; `None` when `tr` lacks the result that is needed.
pub open spec fn host_binary(op: TokenKind, l: ValueModel, r: ValueModel, tr: Seq<HostResult>) -> Option<(Outcome, Seq<HostResult>)> {
    match binary_result(op, l, r) {
        Some(o) => Some((o, tr)),
        None => if tr.len() == 0 {
            None
        } else {
            match (l, r, tr[0]) {
                (ValueModel::Number(_), ValueModel::Number(_), HostResult::Num(n)) => Some(
                    (Ok(ValueModel::Number(n)), tr.drop_first()),
                ),
                (ValueModel::Str(a), ValueModel::Number(_), HostResult::Text(t)) => Some(
                    (Ok(ValueModel::Str(a + t)), tr.drop_first()),
                ),
                (ValueModel::Number(_), ValueModel::Str(b), HostResult::Text(t)) => Some(
                    (Ok(ValueModel::Str(t + b)), tr.drop_first()),
                ),
                _ => None,
            }
        },
    }
}

/// The host's result that a binary operator's outcome `res` was made from.
pub open spec fn host_item(l: ValueModel, r: ValueModel, res: Outcome) -> HostResult {
    match (l, r, res) {
        (ValueModel::Str(a), ValueModel::Number(_), Ok(ValueModel::Str(t))) => HostResult::Text(
            t.subrange(a.len() as int, t.len() as int),
        ),
        (ValueModel::Number(_), ValueModel::Str(b), Ok(ValueModel::Str(t))) => HostResult::Text(
            t.subrange(0, t.len() - b.len()),
        ),
        (_, _, Ok(ValueModel::Number(n))) => HostResult::Num(n),
        _ => HostResult::Num(0),
    }
}

/// Every outcome that `binary_rel` allows is the outcome for some result of the host.
pub proof fn lemma_rel_host(op: TokenKind, l: ValueModel, r: ValueModel, res: Outcome)
    requires
        binary_rel(op, l, r, res),
        binary_result(op, l, r) is None,
    ensures
        host_binary(op, l, r, seq![host_item(l, r, res)]) == Some((res, Seq::<HostResult>::empty())),
{
    match (l, r, res) {
        (ValueModel::Str(a), ValueModel::Number(_), Ok(ValueModel::Str(t))) => {
            assert(a + t.subrange(a.len() as int, t.len() as int) =~= t);
        },
        (ValueModel::Number(_), ValueModel::Str(b), Ok(ValueModel::Str(t))) => {
            assert(t.subrange(0, t.len() - b.len()) + b =~= t);
        },
        _ => {},
    }
    assert(seq![host_item(l, r, res)].drop_first() =~= Seq::<HostResult>::empty());
}

pub proof fn lemma_host_binary_extend(op: TokenKind, l: ValueModel, r: ValueModel, tr: Seq<HostResult>, rest: Seq<HostResult>)
    ensures
        host_binary(op, l, r, tr) matches Some((o, t)) ==> host_binary(op, l, r, tr + rest) == Some((o, t + rest)),
{
    if tr.len() > 0 {
        assert((tr + rest)[0] == tr[0]);
        assert((tr + rest).drop_first() =~= tr.drop_first() + rest);
    }
}

/// Evaluation with the host's results taken, in order, from `tr`: the outcome, the scope stack
/// after it, and what is left of `tr`; `None` when `tr` lacks a result that is needed. Every
/// run of the evaluator, whatever its host computes, is this for some `tr`.
pub open spec fn ev(e: Expr, env: EnvModel, tr: Seq<HostResult>) -> Option<(Outcome, EnvModel, Seq<HostResult>)>
    decreases e,
{
    match e {
        Expr::LiteralExpression { value } => Some(
            (
                Ok(
                    match value {
                        Some(v) => v@,
                        None => ValueModel::Nil,
                    },
                ),
                env,
                tr,
            ),
        ),
        Expr::GroupingExpression { expression } => ev(*expression, env, tr),
        Expr::VariableResolutionExpression { name } => Some(
            (
                match lookup(env, name.lexeme@) {
                    Some(v) => Ok(v),
                    None => Err(ErrorKind::UnknownIdentifier),
                },
                env,
                tr,
            ),
        ),
        Expr::AssignmentExpression { name, value } => match ev(*value, env, tr) {
            Some((Ok(v), e1, t1)) => if lookup(e1, name.lexeme@) is Some {
                Some((Ok(v), assign(e1, name.lexeme@, v), t1))
            } else {
                Some((Err(ErrorKind::UnknownIdentifier), e1, t1))
            },
            other => other,
        },
        Expr::UnaryExpression { operator, right } => match ev(*right, env, tr) {
            Some((Ok(v), e1, t1)) => Some((unary_result(operator.kind, v), e1, t1)),
            other => other,
        },
        Expr::BinaryExpression { left, operator, right } => match ev(*left, env, tr) {
            Some((Ok(a), e1, t1)) => match ev(*right, e1, t1) {
                Some((Ok(b), e2, t2)) => match host_binary(operator.kind, a, b, t2) {
                    Some((o, t3)) => Some((o, e2, t3)),
                    None => None,
                },
                other => other,
            },
            other => other,
        },
        Expr::LogicalExpression { left, operator, right } => match ev(*left, env, tr) {
            Some((Ok(a), e1, t1)) => if operator.kind == TokenKind::Or && truthy(a) {
                Some((Ok(a), e1, t1))
            } else if operator.kind == TokenKind::And && !truthy(a) {
                Some((Ok(ValueModel::Boolean(false)), e1, t1))
            } else if operator.kind == TokenKind::Or || operator.kind == TokenKind::And {
                match ev(*right, e1, t1) {
                    Some((Ok(b), e2, t2)) => Some((Ok(logical_value(b)), e2, t2)),
                    other => other,
                }
            } else {
                Some((Err(ErrorKind::Unimplemented), e1, t1))
            },
            other => other,
        },
        _ => Some((Err(ErrorKind::Unimplemented), env, tr)),
    }
}

/// Results of the host that an evaluation does not use are left over, untouched.
pub proof fn lemma_ev_extend(e: Expr, env: EnvModel, tr: Seq<HostResult>, rest: Seq<HostResult>)
    ensures
        ev(e, env, tr) matches Some((o, e2, t)) ==> ev(e, env, tr + rest) == Some((o, e2, t + rest)),
    decreases e,
{
    match e {
        Expr::GroupingExpression { expression } => lemma_ev_extend(*expression, env, tr, rest),
        Expr::AssignmentExpression { name, value } => lemma_ev_extend(*value, env, tr, rest),
        Expr::UnaryExpression { operator, right } => lemma_ev_extend(*right, env, tr, rest),
        Expr::BinaryExpression { left, operator, right } => {
            lemma_ev_extend(*left, env, tr, rest);
            if let Some((Ok(a), e1, t1)) = ev(*left, env, tr) {
                lemma_ev_extend(*right, e1, t1, rest);
                if let Some((Ok(b), e2, t2)) = ev(*right, e1, t1) {
                    lemma_host_binary_extend(operator.kind, a, b, t2, rest);
                }
            }
        },
        Expr::LogicalExpression { left, operator, right } => {
            lemma_ev_extend(*left, env, tr, rest);
            if let Some((Ok(a), e1, t1)) = ev(*left, env, tr) {
                lemma_ev_extend(*right, e1, t1, rest);
            }
        },
        _ => {},
    }
}

/// `head` + `name` + `tail`, as one message.
fn message(head: &str, name: &String, tail: &str) -> (r: String) {
    let mut m = String::from_str(head);
    m.append(name.as_str());
    m.append(tail);
    m
}

fn runtime_error(kind: ErrorKind, msg: String, line: usize) -> (r: Error)
    ensures
        r.kind == kind,
        r.msg@ == msg@,
        r.line == Some(line),
{
    Error::new(kind, msg, Some(line), 0, None)
}

/// Applies a binary operator to two evaluated operands.
pub fn binary_op<A: Arithmetic>(operator: &Token, l: Value, r: Value, arith: &A) -> (res: Result<Value, Error>)
    ensures
        binary_rel(operator.kind, l@, r@, outcome(res)),
{
    let op = operator.kind;
    if op == TokenKind::Plus {
        match l {
            Value::Number(a) => match r {
                Value::Number(b) => Ok(Value::Number(arith.add(a, b))),
                Value::String(b) => {
                    let mut text = arith.format(a);
                    let ghost t0 = text@;
                    text.append(b.as_str());
                    assert(text@.subrange(text@.len() - b@.len(), text@.len() as int) =~= b@);
                    assert(t0 + b@ == text@);
                    Ok(Value::String(text))
                },
                _ => Err(runtime_error(ErrorKind::TypeMismatch, message("Operands of \"", &operator.lexeme, "\" must be two numbers or two strings."), operator.line)),
            },
            Value::String(mut a) => match r {
                Value::Number(b) => {
                    let text = arith.format(b);
                    let ghost a0 = a@;
                    a.append(text.as_str());
                    assert(a@.subrange(0, a0.len() as int) =~= a0);
                    Ok(Value::String(a))
                },
                Value::String(b) => {
                    a.append(b.as_str());
                    Ok(Value::String(a))
                },
                _ => Err(runtime_error(ErrorKind::TypeMismatch, message("Operands of \"", &operator.lexeme, "\" must be two numbers or two strings."), operator.line)),
            },
            _ => Err(runtime_error(ErrorKind::TypeMismatch, message("Operands of \"", &operator.lexeme, "\" must be two numbers or two strings."), operator.line)),
        }
    } else if op == TokenKind::Minus || op == TokenKind::Star || op == TokenKind::Slash
        || op == TokenKind::Greater || op == TokenKind::GreaterEqual || op == TokenKind::Less
        || op == TokenKind::LessEqual {
        match (l, r) {
            (Value::Number(a), Value::Number(b)) => {
                if op == TokenKind::Minus {
                    Ok(Value::Number(arith.sub(a, b)))
                } else if op == TokenKind::Star {
                    Ok(Value::Number(arith.mul(a, b)))
                } else if op == TokenKind::Slash {
                    if b.is_zero() {
                        Err(runtime_error(ErrorKind::DivideByZero, String::from_str("Cannot divide by zero."), operator.line))
                    } else {
                        Ok(Value::Number(arith.div(a, b)))
                    }
                } else if op == TokenKind::Greater {
                    Ok(Value::Boolean(b.num_lt(&a)))
                } else if op == TokenKind::GreaterEqual {
                    Ok(Value::Boolean(b.num_le(&a)))
                } else if op == TokenKind::Less {
                    Ok(Value::Boolean(a.num_lt(&b)))
                } else {
                    Ok(Value::Boolean(a.num_le(&b)))
                }
            },
            _ => Err(runtime_error(ErrorKind::TypeMismatch, message("Operands of \"", &operator.lexeme, "\" must be two numbers."), operator.line)),
        }
    } else if op == TokenKind::EqualEqual {
        Ok(Value::Boolean(l.equals(&r)))
    } else if op == TokenKind::BangEqual {
        Ok(Value::Boolean(!l.equals(&r)))
    } else {
        Err(runtime_error(ErrorKind::Unimplemented, message("Operator \"", &operator.lexeme, "\" is not implemented."), operator.line))
    }
}

/// Evaluates an expression. Whatever the host's arithmetic computes, the outcome and the
/// resulting scope stack are those of `ev` for some sequence of host results; wherever no
/// floating-point computation or number formatting is involved, they are exactly those of
/// `eval`. The number of frames never changes.
pub fn evaluate<A: Arithmetic>(expr: &Expr, env: &mut Environment, arith: &A) -> (r: Result<Value, Error>)
    ensures
        final(env)@.len() == old(env)@.len(),
        eval(*expr, old(env)@) matches Some((res, env2)) ==> final(env)@ == env2 && outcome(r) == res,
        exists|tr: Seq<HostResult>|
            #[trigger] ev(*expr, old(env)@, tr) == Some((outcome(r), final(env)@, Seq::<HostResult>::empty())),
    decreases expr,
{
    let ghost e0 = env@;
    let ghost mut w: Seq<HostResult> = Seq::empty();
    let r = match expr {
        Expr::LiteralExpression { value } => match value {
            Some(v) => Ok(v.duplicate()),
            None => Ok(Value::Nil),
        },
        Expr::GroupingExpression { expression } => {
            let r = evaluate(expression, env, arith);
            proof {
                w = choose|t: Seq<HostResult>| ev(**expression, e0, t) == Some((outcome(r), env@, Seq::<HostResult>::empty()));
            }
            r
        },
        Expr::VariableResolutionExpression { name } => match env.get(&name.lexeme) {
            Some(v) => Ok(v),
            None => Err(runtime_error(ErrorKind::UnknownIdentifier, message("Usage of undeclared variable \"", &name.lexeme, "\"."), name.line)),
        },
        Expr::AssignmentExpression { name, value } => {
            let ra = evaluate(value, env, arith);
            proof {
                w = choose|t: Seq<HostResult>| ev(**value, e0, t) == Some((outcome(ra), env@, Seq::<HostResult>::empty()));
            }
            match ra {
                Err(e) => Err(e),
                Ok(v) => {
                    let ghost before = env@;
                    let stored = v.duplicate();
                    proof {
                        lemma_assign_keeps_frames(before, name.lexeme@, v@);
                        lemma_assign_unbound(before, name.lexeme@, v@);
                    }
                    if env.assign(&name.lexeme, stored) {
                        Ok(v)
                    } else {
                        Err(runtime_error(ErrorKind::UnknownIdentifier, message("Assignment of undeclared variable \"", &name.lexeme, "\"."), name.line))
                    }
                },
            }
        },
        Expr::UnaryExpression { operator, right } => {
            let ra = evaluate(right, env, arith);
            proof {
                w = choose|t: Seq<HostResult>| ev(**right, e0, t) == Some((outcome(ra), env@, Seq::<HostResult>::empty()));
            }
            match ra {
                Err(e) => Err(e),
                Ok(v) => {
                    if operator.kind == TokenKind::Minus {
                        match v {
                            Value::Number(n) => Ok(Value::Number(n.negate())),
                            _ => Err(runtime_error(ErrorKind::TypeMismatch, message("Operand of \"", &operator.lexeme, "\" must be a number."), operator.line)),
                        }
                    } else if operator.kind == TokenKind::Bang {
                        Ok(Value::Boolean(!v.truthy()))
                    } else {
                        Err(runtime_error(ErrorKind::Unimplemented, message("Operator \"", &operator.lexeme, "\" is not implemented."), operator.line))
                    }
                },
            }
        },
        Expr::BinaryExpression { left, operator, right } => {
            let ra = evaluate(left, env, arith);
            let ghost e1 = env@;
            let ghost tl = choose|t: Seq<HostResult>| ev(**left, e0, t) == Some((outcome(ra), e1, Seq::<HostResult>::empty()));
            proof {
                w = tl;
            }
            match ra {
                Err(e) => Err(e),
                Ok(a) => {
                    let rb = evaluate(right, env, arith);
                    let ghost e2 = env@;
                    let ghost tr2 = choose|t: Seq<HostResult>| ev(**right, e1, t) == Some((outcome(rb), e2, Seq::<HostResult>::empty()));
                    proof {
                        lemma_ev_extend(**left, e0, tl, tr2);
                        w = tl + tr2;
                    }
                    match rb {
                        Err(e) => Err(e),
                        Ok(b) => {
                            let ghost av = a@;
                            let ghost bv = b@;
                            let res = binary_op(operator, a, b, arith);
                            proof {
                                let h = if binary_result(operator.kind, av, bv) is None {
                                    lemma_rel_host(operator.kind, av, bv, outcome(res));
                                    seq![host_item(av, bv, outcome(res))]
                                } else {
                                    Seq::<HostResult>::empty()
                                };
                                lemma_ev_extend(**left, e0, tl, tr2 + h);
                                lemma_ev_extend(**right, e1, tr2, h);
                                assert(h + Seq::<HostResult>::empty() =~= h);
                                w = tl + (tr2 + h);
                            }
                            res
                        },
                    }
                },
            }
        },
        Expr::LogicalExpression { left, operator, right } => {
            let ra = evaluate(left, env, arith);
            let ghost e1 = env@;
            let ghost tl = choose|t: Seq<HostResult>| ev(**left, e0, t) == Some((outcome(ra), e1, Seq::<HostResult>::empty()));
            proof {
                w = tl;
            }
            match ra {
                Err(e) => Err(e),
                Ok(a) => {
                    let is_or = operator.kind == TokenKind::Or;
                    let is_and = operator.kind == TokenKind::And;
                    if is_or && a.truthy() {
                        Ok(a)
                    } else if is_and && !a.truthy() {
                        Ok(Value::Boolean(false))
                    } else if is_or || is_and {
                        let rb = evaluate(right, env, arith);
                        proof {
                            let tr2 = choose|t: Seq<HostResult>| ev(**right, e1, t) == Some((outcome(rb), env@, Seq::<HostResult>::empty()));
                            lemma_ev_extend(**left, e0, tl, tr2);
                            w = tl + tr2;
                        }
                        match rb {
                            Err(e) => Err(e),
                            Ok(b) => if b.truthy() {
                                Ok(b)
                            } else {
                                Ok(Value::Boolean(false))
                            },
                        }
                    } else {
                        Err(runtime_error(ErrorKind::Unimplemented, message("Operator \"", &operator.lexeme, "\" is not implemented."), operator.line))
                    }
                },
            }
        },
        Expr::CallExpression { paren, .. } => Err(runtime_error(ErrorKind::Unimplemented, String::from_str("Calls are not implemented."), paren.line)),
        Expr::GetExpression { name, .. } => Err(runtime_error(ErrorKind::Unimplemented, String::from_str("Property access is not implemented."), name.line)),
        Expr::SetExpression { name, .. } => Err(runtime_error(ErrorKind::Unimplemented, String::from_str("Property assignment is not implemented."), name.line)),
        Expr::SuperExpression { keyword, .. } => Err(runtime_error(ErrorKind::Unimplemented, String::from_str("\"super\" is not implemented."), keyword.line)),
        Expr::SelfExpression { keyword } => Err(runtime_error(ErrorKind::Unimplemented, String::from_str("\"self\" is not implemented."), keyword.line)),
    };
    assert(ev(*expr, e0, w) == Some((outcome(r), env@, Seq::<HostResult>::empty())));
    r
}

/// The effect of running statements with the host's results taken from a sequence: the lines
/// printed, the error that stopped the run if any, the scope stack after it, and what is left
/// of the sequence.
pub type TraceRun = (Seq<Seq<char>>, Option<ErrorKind>, EnvModel, Seq<HostResult>);

/// A run whose effect comes after the lines `o` that were already printed.
pub open spec fn after_tr(o: Seq<Seq<char>>, r: Option<TraceRun>) -> Option<TraceRun> {
    match r {
        Some((o2, err, e, t)) => Some((o + o2, err, e, t)),
        None => None,
    }
}

/// An evaluation that only decides whether the statement around it stops.
pub open spec fn st_expr(r: Option<(Outcome, EnvModel, Seq<HostResult>)>) -> Option<TraceRun> {
    match r {
        Some((Ok(_), e1, t1)) => Some((seq![], None, e1, t1)),
        Some((Err(k), e1, t1)) => Some((seq![], Some(k), e1, t1)),
        None => None,
    }
}

/// Execution of one statement with the host's results taken, in order, from `tr`; printing a
/// number prints the host's text for it. Every run of the evaluator, whatever its host
/// computes, is this for some `tr`.
pub open spec fn st(s: Stmt, env: EnvModel, tr: Seq<HostResult>) -> Option<TraceRun>
    decreases s,
{
    match s {
        Stmt::ExpressionStmt { expression } => st_expr(ev(*expression, env, tr)),
        Stmt::AssignmentStmt { expression } => st_expr(ev(*expression, env, tr)),
        Stmt::PrintStmt { expression } => match ev(*expression, env, tr) {
            Some((Ok(v), e1, t1)) => if v is Number {
                if t1.len() > 0 && t1[0] is Text {
                    Some((seq![t1[0]->Text_0], None, e1, t1.drop_first()))
                } else {
                    None
                }
            } else {
                Some((seq![display_text(v)], None, e1, t1))
            },
            other => st_expr(other),
        },
        Stmt::VarDeclStmt { name, initializer } => match ev(initializer, env, tr) {
            Some((Ok(v), e1, t1)) => if frame_get(e1.last(), name.lexeme@) is Some {
                Some((seq![], Some(ErrorKind::AlreadyDeclared), e1, t1))
            } else {
                Some((seq![], None, declare(e1, name.lexeme@, v), t1))
            },
            other => st_expr(other),
        },
        Stmt::BlockStmt { statements } => match st_list(statements@, env.push(seq![]), tr) {
            Some((o, err, e1, t)) => Some((o, err, e1.drop_last(), t)),
            None => None,
        },
        Stmt::IfStmt { condition, then_branch, else_if_branches, else_branch } => match ev(
            *condition,
            env,
            tr,
        ) {
            Some((Ok(v), e1, t1)) => if truthy(v) {
                st(*then_branch, e1, t1)
            } else {
                match st_chain(else_if_branches@, e1, t1) {
                    Some((false, (o, None, e2, t2))) => match else_branch {
                        Some(b) => after_tr(o, st(*b, e2, t2)),
                        None => Some((o, None, e2, t2)),
                    },
                    Some((_, run)) => Some(run),
                    None => None,
                }
            },
            other => st_expr(other),
        },
        Stmt::Invalid { .. } => Some((seq![], Some(ErrorKind::UnexpectedToken), env, tr)),
        _ => Some((seq![], Some(ErrorKind::Unimplemented), env, tr)),
    }
}

/// Statements in order with the host's results taken from `tr`, stopping at the first error.
pub open spec fn st_list(ss: Seq<Stmt>, env: EnvModel, tr: Seq<HostResult>) -> Option<TraceRun>
    decreases ss,
{
    if ss.len() == 0 {
        Some((seq![], None, env, tr))
    } else {
        match st(ss[0], env, tr) {
            Some((o, None, e1, t1)) => after_tr(o, st_list(ss.drop_first(), e1, t1)),
            other => other,
        }
    }
}

/// The `else if` arms with the host's results taken from `tr`: whether one was taken (or
/// failed), and the run so far.
pub open spec fn st_chain(bs: Seq<ElseIfBranch>, env: EnvModel, tr: Seq<HostResult>) -> Option<(bool, TraceRun)>
    decreases bs,
{
    if bs.len() == 0 {
        Some((false, (seq![], None, env, tr)))
    } else {
        match ev(*bs[0].condition, env, tr) {
            Some((Ok(v), e1, t1)) => if truthy(v) {
                match st(*bs[0].then_branch, e1, t1) {
                    Some(run) => Some((true, run)),
                    None => None,
                }
            } else {
                st_chain(bs.drop_first(), e1, t1)
            },
            Some((Err(k), e1, t1)) => Some((true, (seq![], Some(k), e1, t1))),
            None => None,
        }
    }
}

pub proof fn lemma_st_extend(s: Stmt, env: EnvModel, tr: Seq<HostResult>, rest: Seq<HostResult>)
    ensures
        st(s, env, tr) matches Some((o, k, e2, t)) ==> st(s, env, tr + rest) == Some((o, k, e2, t + rest)),
    decreases s,
{
    match s {
        Stmt::ExpressionStmt { expression } => lemma_ev_extend(*expression, env, tr, rest),
        Stmt::AssignmentStmt { expression } => lemma_ev_extend(*expression, env, tr, rest),
        Stmt::PrintStmt { expression } => {
            lemma_ev_extend(*expression, env, tr, rest);
            if let Some((Ok(v), e1, t1)) = ev(*expression, env, tr) {
                if t1.len() > 0 {
                    assert((t1 + rest)[0] == t1[0]);
                    assert((t1 + rest).drop_first() =~= t1.drop_first() + rest);
                }
            }
        },
        Stmt::VarDeclStmt { name, initializer } => lemma_ev_extend(initializer, env, tr, rest),
        Stmt::BlockStmt { statements } => lemma_list_extend(statements@, env.push(seq![]), tr, rest),
        Stmt::IfStmt { condition, then_branch, else_if_branches, else_branch } => {
            lemma_ev_extend(*condition, env, tr, rest);
            if let Some((Ok(v), e1, t1)) = ev(*condition, env, tr) {
                lemma_st_extend(*then_branch, e1, t1, rest);
                lemma_chain_extend(else_if_branches@, e1, t1, rest);
                if let Some((false, (o, None, e2, t2))) = st_chain(else_if_branches@, e1, t1) {
                    if let Some(b) = else_branch {
                        lemma_st_extend(*b, e2, t2, rest);
                    }
                }
            }
        },
        _ => {},
    }
}

pub proof fn lemma_list_extend(ss: Seq<Stmt>, env: EnvModel, tr: Seq<HostResult>, rest: Seq<HostResult>)
    ensures
        st_list(ss, env, tr) matches Some((o, k, e2, t)) ==> st_list(ss, env, tr + rest) == Some((o, k, e2, t + rest)),
    decreases ss,
{
    if ss.len() > 0 {
        lemma_st_extend(ss[0], env, tr, rest);
        if let Some((o, None, e1, t1)) = st(ss[0], env, tr) {
            lemma_list_extend(ss.drop_first(), e1, t1, rest);
        }
    }
}

pub proof fn lemma_chain_extend(bs: Seq<ElseIfBranch>, env: EnvModel, tr: Seq<HostResult>, rest: Seq<HostResult>)
    ensures
        st_chain(bs, env, tr) matches Some((taken, (o, k, e2, t))) ==> st_chain(bs, env, tr + rest) == Some((taken, (o, k, e2, t + rest))),
    decreases bs,
{
    if bs.len() > 0 {
        lemma_ev_extend(*bs[0].condition, env, tr, rest);
        if let Some((Ok(v), e1, t1)) = ev(*bs[0].condition, env, tr) {
            lemma_st_extend(*bs[0].then_branch, e1, t1, rest);
            lemma_chain_extend(bs.drop_first(), e1, t1, rest);
        }
    }
}

pub proof fn lemma_after_tr_assoc(a: Seq<Seq<char>>, b: Seq<Seq<char>>, r: Option<TraceRun>)
    ensures
        after_tr(a, after_tr(b, r)) == after_tr(a + b, r),
{
    if let Some((o, err, e, t)) = r {
        assert(a + (b + o) =~= (a + b) + o);
    }
}

/// The text of each printed line.
pub open spec fn lines(v: Seq<String>) -> Seq<Seq<char>> {
    v.map_values(|s: String| s@)
}

/// The kind of the error that stopped a run, if any.
pub open spec fn error_kind(r: Result<(), Error>) -> Option<ErrorKind> {
    match r {
        Ok(_) => None,
        Err(e) => Some(e.kind),
    }
}

proof fn lemma_lines_split(v: Seq<String>, n: int)
    requires
        0 <= n <= v.len(),
    ensures
        lines(v) == lines(v.subrange(0, n)) + lines(v).subrange(n, v.len() as int),
{
    assert(lines(v) =~= lines(v.subrange(0, n)) + lines(v).subrange(n, v.len() as int));
}

proof fn lemma_after_assoc(a: Seq<Seq<char>>, b: Seq<Seq<char>>, r: Option<Run>)
    ensures
        after(a, after(b, r)) == after(a + b, r),
{
    if let Some((o, err, e)) = r {
        assert(a + (b + o) =~= (a + b) + o);
    }
}

/// The lines appended to `before` in `after`.
pub open spec fn printed(after: Seq<String>, before: Seq<String>) -> Seq<Seq<char>> {
    lines(after).subrange(before.len() as int, after.len() as int)
}

proof fn lemma_after_tr_empty(r: Option<TraceRun>)
    ensures
        after_tr(seq![], r) == r,
{
    if let Some((o, err, e, t)) = r {
        assert(seq![] + o =~= o);
    }
}

/// Executes one statement, appending what it prints to `out`. Whatever the host's arithmetic
/// computes, the printed lines, the error and the resulting scope stack are those of `st` for
/// some sequence of host results; wherever no floating-point computation or number formatting
/// is involved, they are exactly those of `exec_stmt`. In every case the statement leaves as
/// many frames as it found, and earlier output stays as it was.
pub fn execute<A: Arithmetic>(stmt: &Stmt, env: &mut Environment, arith: &A, out: &mut Vec<String>) -> (r: Result<(), Error>)
    requires
        old(env)@.len() >= 1,
    ensures
        final(env)@.len() == old(env)@.len(),
        final(out)@.len() >= old(out)@.len(),
        final(out)@.subrange(0, old(out)@.len() as int) == old(out)@,
        exec_stmt(*stmt, old(env)@) matches Some((o, err, e2)) ==> final(env)@ == e2 && lines(
            final(out)@,
        ) == lines(old(out)@) + o && error_kind(r) == err,
        exists|tr: Seq<HostResult>|
            #[trigger] st(*stmt, old(env)@, tr) == Some(
                (printed(final(out)@, old(out)@), error_kind(r), final(env)@, Seq::<HostResult>::empty()),
            ),
        stmt is Invalid ==> (r matches Err(e) && e.line == Some(stmt->Invalid_line) && e.msg@
            == "Statement could not be parsed."@),
    decreases stmt, 1nat,
{
    match stmt {
        Stmt::BlockStmt { .. } => execute_block(stmt, env, arith, out),
        Stmt::IfStmt { .. } => execute_if(stmt, env, arith, out),
        _ => execute_simple(stmt, env, arith, out),
    }
}

/// A statement other than a block or an `if`.
fn execute_simple<A: Arithmetic>(stmt: &Stmt, env: &mut Environment, arith: &A, out: &mut Vec<String>) -> (r: Result<(), Error>)
    requires
        old(env)@.len() >= 1,
        !(stmt is BlockStmt) && !(stmt is IfStmt),
    ensures
        final(env)@.len() == old(env)@.len(),
        final(out)@.len() >= old(out)@.len(),
        final(out)@.subrange(0, old(out)@.len() as int) == old(out)@,
        exec_stmt(*stmt, old(env)@) matches Some((o, err, e2)) ==> final(env)@ == e2 && lines(
            final(out)@,
        ) == lines(old(out)@) + o && error_kind(r) == err,
        exists|tr: Seq<HostResult>|
            #[trigger] st(*stmt, old(env)@, tr) == Some(
                (printed(final(out)@, old(out)@), error_kind(r), final(env)@, Seq::<HostResult>::empty()),
            ),
        stmt is Invalid ==> (r matches Err(e) && e.line == Some(stmt->Invalid_line) && e.msg@
            == "Statement could not be parsed."@),
    decreases stmt, 0nat,
{
    let ghost out0 = out@;
    let ghost e0 = env@;
    assert(out@.subrange(0, out0.len() as int) =~= out0);
    assert(printed(out0, out0) =~= Seq::<Seq<char>>::empty());
    match stmt {
        Stmt::ExpressionStmt { expression } => {
            let ra = evaluate(expression, env, arith);
            proof {
                let w = choose|t: Seq<HostResult>| ev(**expression, e0, t) == Some((outcome(ra), env@, Seq::<HostResult>::empty()));
                assert(st(*stmt, e0, w) == Some((printed(out@, out0), match ra { Ok(_) => None, Err(e) => Some(e.kind) }, env@, Seq::<HostResult>::empty())));
            }
            match ra {
                Ok(_) => Ok(()),
                Err(e) => Err(e),
            }
        },
        Stmt::AssignmentStmt { expression } => {
            let ra = evaluate(expression, env, arith);
            proof {
                let w = choose|t: Seq<HostResult>| ev(**expression, e0, t) == Some((outcome(ra), env@, Seq::<HostResult>::empty()));
                assert(st(*stmt, e0, w) == Some((printed(out@, out0), match ra { Ok(_) => None, Err(e) => Some(e.kind) }, env@, Seq::<HostResult>::empty())));
            }
            match ra {
                Ok(_) => Ok(()),
                Err(e) => Err(e),
            }
        },
        Stmt::PrintStmt { expression } => {
            let ra = evaluate(expression, env, arith);
            let ghost te = choose|t: Seq<HostResult>| ev(**expression, e0, t) == Some((outcome(ra), env@, Seq::<HostResult>::empty()));
            match ra {
                Err(e) => {
                    assert(st(*stmt, e0, te) == Some((printed(out@, out0), Some(e.kind), env@, Seq::<HostResult>::empty())));
                    Err(e)
                },
                Ok(v) => {
                    let text = v.to_string(arith);
                    out.push(text);
                    proof {
                        assert(out@.subrange(0, out0.len() as int) =~= out0);
                        assert(lines(out@) =~= lines(out0) + seq![text@]);
                        assert(printed(out@, out0) =~= seq![text@]);
                        let h = if v@ is Number {
                            seq![HostResult::Text(text@)]
                        } else {
                            Seq::<HostResult>::empty()
                        };
                        lemma_ev_extend(**expression, e0, te, h);
                        if v@ is Number {
                            assert(h.drop_first() =~= Seq::<HostResult>::empty());
                        } else {
                            assert(te + h =~= te);
                        }
                        assert(st(*stmt, e0, te + h) == Some((printed(out@, out0), None::<ErrorKind>, env@, Seq::<HostResult>::empty())));
                    }
                    Ok(())
                },
            }
        },
        Stmt::VarDeclStmt { name, initializer } => {
            let ra = evaluate(initializer, env, arith);
            let ghost te = choose|t: Seq<HostResult>| ev(*initializer, e0, t) == Some((outcome(ra), env@, Seq::<HostResult>::empty()));
            match ra {
                Err(e) => {
                    assert(st(*stmt, e0, te) == Some((printed(out@, out0), Some(e.kind), env@, Seq::<HostResult>::empty())));
                    Err(e)
                },
                Ok(v) => {
                    if env.declared_here(&name.lexeme) {
                        let r = Err(runtime_error(ErrorKind::AlreadyDeclared, message("Variable \"", &name.lexeme, "\" already declared."), name.line));
                        assert(st(*stmt, e0, te) == Some((printed(out@, out0), error_kind(r), env@, Seq::<HostResult>::empty())));
                        r
                    } else {
                        env.define(name.lexeme.clone(), v);
                        assert(st(*stmt, e0, te) == Some((printed(out@, out0), None::<ErrorKind>, env@, Seq::<HostResult>::empty())));
                        Ok(())
                    }
                },
            }
        },
        Stmt::Invalid { line } => {
            let r = Err(runtime_error(ErrorKind::UnexpectedToken, String::from_str("Statement could not be parsed."), *line));
            assert(st(*stmt, e0, Seq::<HostResult>::empty()) == Some((printed(out@, out0), error_kind(r), env@, Seq::<HostResult>::empty())));
            r
        },
        Stmt::WhileStmt { .. } => {
            let r = Err(Error::new(ErrorKind::Unimplemented, String::from_str("\"while\" is not implemented."), None, 0, None));
            assert(st(*stmt, e0, Seq::<HostResult>::empty()) == Some((printed(out@, out0), error_kind(r), env@, Seq::<HostResult>::empty())));
            r
        },
        Stmt::FunctionStmt { name, .. } => {
            let r = Err(runtime_error(ErrorKind::Unimplemented, String::from_str("Functions are not implemented."), name.line));
            assert(st(*stmt, e0, Seq::<HostResult>::empty()) == Some((printed(out@, out0), error_kind(r), env@, Seq::<HostResult>::empty())));
            r
        },
        Stmt::ReturnStmt { keyword, .. } => {
            let r = Err(runtime_error(ErrorKind::Unimplemented, String::from_str("\"return\" is not implemented."), keyword.line));
            assert(st(*stmt, e0, Seq::<HostResult>::empty()) == Some((printed(out@, out0), error_kind(r), env@, Seq::<HostResult>::empty())));
            r
        },
        Stmt::ClassStmt { name, .. } => {
            let r = Err(runtime_error(ErrorKind::Unimplemented, String::from_str("Classes are not implemented."), name.line));
            assert(st(*stmt, e0, Seq::<HostResult>::empty()) == Some((printed(out@, out0), error_kind(r), env@, Seq::<HostResult>::empty())));
            r
        },
        _ => {
            assert(false);
            Ok(())
        },
    }
}

/// A block: its statements in a new innermost frame, up to the first error.
fn execute_block<A: Arithmetic>(stmt: &Stmt, env: &mut Environment, arith: &A, out: &mut Vec<String>) -> (r: Result<(), Error>)
    requires
        old(env)@.len() >= 1,
        stmt is BlockStmt,
    ensures
        final(env)@.len() == old(env)@.len(),
        final(out)@.len() >= old(out)@.len(),
        final(out)@.subrange(0, old(out)@.len() as int) == old(out)@,
        exec_stmt(*stmt, old(env)@) matches Some((o, err, e2)) ==> final(env)@ == e2 && lines(
            final(out)@,
        ) == lines(old(out)@) + o && error_kind(r) == err,
        exists|tr: Seq<HostResult>|
            #[trigger] st(*stmt, old(env)@, tr) == Some(
                (printed(final(out)@, old(out)@), error_kind(r), final(env)@, Seq::<HostResult>::empty()),
            ),
        stmt is Invalid ==> (r matches Err(e) && e.line == Some(stmt->Invalid_line) && e.msg@
            == "Statement could not be parsed."@),
    decreases stmt, 0nat,
{
    let ghost out0 = out@;
    let ghost e0 = env@;
    assert(out@.subrange(0, out0.len() as int) =~= out0);
    assert(printed(out0, out0) =~= Seq::<Seq<char>>::empty());
    match stmt {
        Stmt::BlockStmt { statements } => {
            let ghost ss = statements@;
            let ghost env_b = old(env)@.push(seq![]);
            env.push_frame();
            let ghost mut tracking = true;
            let ghost mut acc: Seq<HostResult> = Seq::empty();
            assert forall|x: Seq<HostResult>|
                st_list(ss, env_b, acc + x) == after_tr(printed(out@, out0), #[trigger] st_list(ss.subrange(0, ss.len() as int), env@, x)) by {
                assert(acc + x =~= x);
                assert(ss.subrange(0, ss.len() as int) =~= ss);
                lemma_after_tr_empty(st_list(ss, env_b, x));
            }
            proof {
                assert(ss.subrange(0, ss.len() as int) =~= ss);
                assert(lines(out@).subrange(out0.len() as int, out@.len() as int) =~= seq![]);
                if let Some((o, err, e)) = exec_list(ss, env_b) {
                    assert(seq![] + o =~= o);
                }
            }
            let mut i: usize = 0;
            while i < statements.len()
                invariant
                    0 <= i <= ss.len(),
                    ss == statements@,
                    stmt is BlockStmt,
                    stmt->BlockStmt_statements == *statements,
                    env_b == old(env)@.push(seq![]),
                    e0 == old(env)@,
                    out0 == old(out)@,
                    old(env)@.len() >= 1,
                    env@.len() == old(env)@.len() + 1,
                    out@.len() >= out0.len(),
                    out@.subrange(0, out0.len() as int) == out0,
                    tracking ==> exec_list(ss, env_b) == after(
                        lines(out@).subrange(out0.len() as int, out@.len() as int),
                        exec_list(ss.subrange(i as int, ss.len() as int), env@),
                    ),
                    !tracking ==> exec_list(ss, env_b) is None,
                    forall|x: Seq<HostResult>|
                        st_list(ss, env_b, acc + x) == after_tr(printed(out@, out0), #[trigger] st_list(ss.subrange(i as int, ss.len() as int), env@, x)),
                decreases ss.len() - i,
            {
                let ghost e_i = env@;
                let ghost out_i = out@;
                let ghost prefix = lines(out_i).subrange(out0.len() as int, out_i.len() as int);
                let ghost rest_i = ss.subrange(i as int, ss.len() as int);
                assert(forall|x: Seq<HostResult>|
                    st_list(ss, env_b, acc + x) == after_tr(printed(out_i, out0), #[trigger] st_list(rest_i, e_i, x)));
                proof {
                    assert(decreases_to!(*stmt => stmt->BlockStmt_statements));
                    assert(decreases_to!(stmt->BlockStmt_statements => statements@));
                    assert(decreases_to!(statements@ => statements@[i as int]));
                    assert(decreases_to!(*stmt => statements@[i as int]));
                }
                let r = execute(&statements[i], env, arith, out);
                let ghost ti = choose|t: Seq<HostResult>| st(ss[i as int], e_i, t) == Some((printed(out@, out_i), error_kind(r), env@, Seq::<HostResult>::empty()));
                let ghost acc_i = acc;
                proof {
                    let rest = ss.subrange(i as int, ss.len() as int);
                    let o = printed(out@, out_i);
                    lemma_lines_split(out_i, out0.len() as int);
                    lemma_lines_split(out@, out_i.len() as int);
                    assert(out@.subrange(0, out_i.len() as int) == out_i);
                    assert(printed(out@, out0) =~= printed(out_i, out0) + o) by {
                        assert(lines(out@) == lines(out_i) + o);
                        assert(lines(out_i) == lines(out0) + printed(out_i, out0)) by {
                            assert(out_i.subrange(0, out0.len() as int) == out0);
                        }
                    }
                    assert(rest[0] == ss[i as int]);
                    assert(rest.drop_first() =~= ss.subrange(i + 1, ss.len() as int));
                    if r is Ok {
                        assert forall|x: Seq<HostResult>|
                            st_list(ss, env_b, (acc_i + ti) + x) == after_tr(printed(out@, out0), #[trigger] st_list(ss.subrange(i + 1, ss.len() as int), env@, x)) by {
                            lemma_st_extend(ss[i as int], e_i, ti, x);
                            assert((acc_i + ti) + x =~= acc_i + (ti + x));
                            assert(st_list(ss, env_b, acc_i + (ti + x)) == after_tr(printed(out_i, out0), st_list(rest_i, e_i, ti + x)));
                            assert(Seq::<HostResult>::empty() + x =~= x);
                            lemma_after_tr_assoc(printed(out_i, out0), o, st_list(ss.subrange(i + 1, ss.len() as int), env@, x));
                        }
                        acc = acc_i + ti;
                    } else {
                        assert(st_list(rest, e_i, ti) == Some((o, error_kind(r), env@, Seq::<HostResult>::empty())));
                        assert(st_list(ss, env_b, acc_i + ti) == after_tr(printed(out_i, out0), st_list(rest_i, e_i, ti)));
                        assert(acc_i + ti == acc_i + ti);
                    }
                }
                proof {
                    let rest = ss.subrange(i as int, ss.len() as int);
                    assert(rest[0] == ss[i as int]);
                    assert(rest.drop_first() =~= ss.subrange(i + 1, ss.len() as int));
                    assert(out@.subrange(0, out0.len() as int) =~= out0) by {
                        assert(out@.subrange(0, out_i.len() as int) == out_i);
                        assert(out@.subrange(0, out0.len() as int) =~= out_i.subrange(0, out0.len() as int));
                    }
                    match exec_stmt(ss[i as int], e_i) {
                        Some((o, None, e1)) => {
                            lemma_lines_split(out_i, out0.len() as int);
                            assert(lines(out_i) == lines(out0) + prefix);
                            assert(lines(out@) =~= lines(out0) + (prefix + o));
                            assert(lines(out@).subrange(out0.len() as int, out@.len() as int) =~= prefix + o);
                            lemma_after_assoc(prefix, o, exec_list(ss.subrange(i + 1, ss.len() as int), e1));
                        },
                        Some((o, Some(k), e1)) => {},
                        None => {
                            tracking = false;
                        },
                    }
                }
                match r {
                    Err(e) => {
                        let ghost e_b = env@;
                        env.pop_frame();
                        proof {
                            let rest = ss.subrange(i as int, ss.len() as int);
                            let o = printed(out@, out_i);
                            assert(st_list(ss, env_b, acc_i + ti) == after_tr(printed(out_i, out0), st_list(rest, e_i, ti)));
                            assert(st_list(rest, e_i, ti) == Some((o, Some(e.kind), e_b, Seq::<HostResult>::empty())));
                            assert(st_list(ss, env_b, acc_i + ti) == Some((printed(out@, out0), Some(e.kind), e_b, Seq::<HostResult>::empty())));
                            assert(*stmt == Stmt::BlockStmt { statements: *statements });
                            assert(env@ == e_b.drop_last());
                            assert(st(*stmt, e0, acc_i + ti) == Some((printed(out@, out0), Some(e.kind), env@, Seq::<HostResult>::empty())));
                            if tracking {
                                if let Some((o, Some(k), e1)) = exec_stmt(ss[i as int], e_i) {
                                    lemma_lines_split(out_i, out0.len() as int);
                                    assert(lines(out@) =~= lines(out0) + (prefix + o));
                                }
                            }
                        }
                        return Err(e);
                    },
                    Ok(()) => {},
                }
                i = i + 1;
            }
            let ghost e_end = env@;
            env.pop_frame();
            proof {
                assert(ss.subrange(ss.len() as int, ss.len() as int) =~= Seq::<Stmt>::empty());
                assert(acc + Seq::<HostResult>::empty() =~= acc);
                assert(st_list(ss, env_b, acc + Seq::<HostResult>::empty()) == after_tr(printed(out@, out0), st_list(ss.subrange(ss.len() as int, ss.len() as int), e_end, Seq::<HostResult>::empty())));
                assert(printed(out@, out0) + seq![] =~= printed(out@, out0));
                assert(st(*stmt, e0, acc) == Some((printed(out@, out0), None::<ErrorKind>, env@, Seq::<HostResult>::empty())));
                if tracking {
                    let prefix = lines(out@).subrange(out0.len() as int, out@.len() as int);
                    assert(prefix + seq![] =~= prefix);
                    lemma_lines_split(out@, out0.len() as int);
                }
            }
            Ok(())
        },
        _ => {
            assert(false);
            Ok(())
        },
    }
}

/// An `if` statement with its `else if` arms and `else` branch.
fn execute_if<A: Arithmetic>(stmt: &Stmt, env: &mut Environment, arith: &A, out: &mut Vec<String>) -> (r: Result<(), Error>)
    requires
        old(env)@.len() >= 1,
        stmt is IfStmt,
    ensures
        final(env)@.len() == old(env)@.len(),
        final(out)@.len() >= old(out)@.len(),
        final(out)@.subrange(0, old(out)@.len() as int) == old(out)@,
        exec_stmt(*stmt, old(env)@) matches Some((o, err, e2)) ==> final(env)@ == e2 && lines(
            final(out)@,
        ) == lines(old(out)@) + o && error_kind(r) == err,
        exists|tr: Seq<HostResult>|
            #[trigger] st(*stmt, old(env)@, tr) == Some(
                (printed(final(out)@, old(out)@), error_kind(r), final(env)@, Seq::<HostResult>::empty()),
            ),
        stmt is Invalid ==> (r matches Err(e) && e.line == Some(stmt->Invalid_line) && e.msg@
            == "Statement could not be parsed."@),
    decreases stmt, 0nat,
{
    let ghost out0 = out@;
    let ghost e0 = env@;
    assert(out@.subrange(0, out0.len() as int) =~= out0);
    assert(printed(out0, out0) =~= Seq::<Seq<char>>::empty());
    match stmt {
        Stmt::IfStmt { condition, then_branch, else_if_branches, else_branch } => {
            let rc = evaluate(condition, env, arith);
            let ghost e1 = env@;
            let ghost te = choose|t: Seq<HostResult>| ev(**condition, e0, t) == Some((outcome(rc), e1, Seq::<HostResult>::empty()));
            match rc {
                Err(e) => {
                    assert(st(*stmt, e0, te) == Some((printed(out@, out0), Some(e.kind), env@, Seq::<HostResult>::empty())));
                    Err(e)
                },
                Ok(v) => {
                    if v.truthy() {
                        let r = execute(then_branch, env, arith, out);
                        proof {
                            let tt = choose|t: Seq<HostResult>| st(**then_branch, e1, t) == Some((printed(out@, out0), error_kind(r), env@, Seq::<HostResult>::empty()));
                            lemma_ev_extend(**condition, e0, te, tt);
                            assert(Seq::<HostResult>::empty() + tt =~= tt);
                            assert(st(*stmt, e0, te + tt) == Some((printed(out@, out0), error_kind(r), env@, Seq::<HostResult>::empty())));
                        }
                        return r;
                    }
                    let ghost bs = else_if_branches@;
                    let ghost mut tracking = true;
                    let ghost mut acc: Seq<HostResult> = Seq::empty();
                    assert forall|x: Seq<HostResult>|
                        st_chain(bs, e1, acc + x) == #[trigger] st_chain(bs.subrange(0, bs.len() as int), env@, x) by {
                        assert(acc + x =~= x);
                        assert(bs.subrange(0, bs.len() as int) =~= bs);
                    }
                    assert forall|w: Seq<HostResult>|
                        #[trigger] ev(**condition, e0, te + w) == Some((Ok::<ValueModel, ErrorKind>(v@), e1, w)) by {
                        lemma_ev_extend(**condition, e0, te, w);
                        assert(Seq::<HostResult>::empty() + w =~= w);
                    }
                    assert(bs.subrange(0, bs.len() as int) =~= bs);
                    let mut i: usize = 0;
                    while i < else_if_branches.len()
                        invariant
                            0 <= i <= bs.len(),
                            bs == else_if_branches@,
                            stmt is IfStmt,
                            stmt->IfStmt_else_if_branches == *else_if_branches,
                            stmt->IfStmt_condition == *condition,
                            stmt->IfStmt_else_branch == *else_branch,
                            eval(**condition, old(env)@) matches Some((res, ee)) ==> (res == Ok::<ValueModel, ErrorKind>(v@) && ee == e1),
                            !truthy(v@),
                            old(env)@.len() >= 1,
                            env@.len() == old(env)@.len(),
                            out@ == old(out)@,
                            out0 == old(out)@,
                            tracking ==> exec_chain(bs, e1) == exec_chain(bs.subrange(i as int, bs.len() as int), env@),
                            !tracking ==> exec_chain(bs, e1) is None,
                            e0 == old(env)@,
                            forall|x: Seq<HostResult>|
                                st_chain(bs, e1, acc + x) == #[trigger] st_chain(bs.subrange(i as int, bs.len() as int), env@, x),
                            forall|w: Seq<HostResult>|
                                #[trigger] ev(**condition, e0, te + w) == Some((Ok::<ValueModel, ErrorKind>(v@), e1, w)),
                        decreases bs.len() - i,
                    {
                        let branch = &else_if_branches[i];
                        proof {
                            assert(decreases_to!(*stmt => stmt->IfStmt_else_if_branches));
                            assert(decreases_to!(stmt->IfStmt_else_if_branches => else_if_branches@));
                            assert(decreases_to!(else_if_branches@ => else_if_branches@[i as int]));
                            assert(decreases_to!(else_if_branches@[i as int] => else_if_branches@[i as int].then_branch));
                            assert(decreases_to!(*stmt => *else_if_branches@[i as int].then_branch));
                        }
                        let ghost e_i = env@;
                        proof {
                            let rest = bs.subrange(i as int, bs.len() as int);
                            assert(rest[0] == bs[i as int]);
                            assert(rest.drop_first() =~= bs.subrange(i + 1, bs.len() as int));
                            if eval(*bs[i as int].condition, e_i) is None {
                                tracking = false;
                            }
                        }
                        let ghost rest_i = bs.subrange(i as int, bs.len() as int);
                        let ghost acc_i = acc;
                        assert(forall|x: Seq<HostResult>|
                            st_chain(bs, e1, acc + x) == #[trigger] st_chain(rest_i, e_i, x));
                        let rc2 = evaluate(&branch.condition, env, arith);
                        let ghost e_c = env@;
                        let ghost tc = choose|t: Seq<HostResult>| ev(*bs[i as int].condition, e_i, t) == Some((outcome(rc2), e_c, Seq::<HostResult>::empty()));
                        match rc2 {
                            Err(e) => {
                                proof {
                                    assert(st_chain(rest_i, e_i, tc) == Some((true, (Seq::<Seq<char>>::empty(), Some(e.kind), e_c, Seq::<HostResult>::empty()))));
                                    assert(st_chain(bs, e1, acc_i + tc) == st_chain(rest_i, e_i, tc));
                                    assert(st(*stmt, e0, te + (acc_i + tc)) == Some((printed(out@, out0), Some(e.kind), env@, Seq::<HostResult>::empty())));
                                }
                                return Err(e);
                            },
                            Ok(c) => {
                                if c.truthy() {
                                    let r = execute(&branch.then_branch, env, arith, out);
                                    proof {
                                        let tb = choose|t: Seq<HostResult>| st(*bs[i as int].then_branch, e_c, t) == Some((printed(out@, out0), error_kind(r), env@, Seq::<HostResult>::empty()));
                                        lemma_ev_extend(*bs[i as int].condition, e_i, tc, tb);
                                        assert(Seq::<HostResult>::empty() + tb =~= tb);
                                        assert(st_chain(rest_i, e_i, tc + tb) == Some((true, (printed(out@, out0), error_kind(r), env@, Seq::<HostResult>::empty()))));
                                        assert(st_chain(bs, e1, acc_i + (tc + tb)) == st_chain(rest_i, e_i, tc + tb));
                                        assert(st(*stmt, e0, te + (acc_i + (tc + tb))) == Some((printed(out@, out0), error_kind(r), env@, Seq::<HostResult>::empty())));
                                    }
                                    return r;
                                }
                                proof {
                                    assert forall|x: Seq<HostResult>|
                                        st_chain(bs, e1, (acc_i + tc) + x) == #[trigger] st_chain(bs.subrange(i + 1, bs.len() as int), env@, x) by {
                                        lemma_ev_extend(*bs[i as int].condition, e_i, tc, x);
                                        assert(Seq::<HostResult>::empty() + x =~= x);
                                        assert((acc_i + tc) + x =~= acc_i + (tc + x));
                                        assert(st_chain(bs, e1, acc_i + (tc + x)) == st_chain(rest_i, e_i, tc + x));
                                    }
                                    acc = acc_i + tc;
                                }
                            },
                        }
                        i = i + 1;
                    }
                    proof {
                        assert(bs.subrange(bs.len() as int, bs.len() as int) =~= Seq::<ElseIfBranch>::empty());
                    }
                    let ghost e_n = env@;
                    match else_branch {
                        Some(b) => {
                            let r = execute(b, env, arith, out);
                            proof {
                                if let Some((o, err, e3)) = exec_stmt(**b, e_n) {
                                    assert(seq![] + o =~= o);
                                }
                                let tb = choose|t: Seq<HostResult>| st(**b, e_n, t) == Some((printed(out@, out0), error_kind(r), env@, Seq::<HostResult>::empty()));
                                assert(st_chain(bs, e1, acc + tb) == st_chain(bs.subrange(bs.len() as int, bs.len() as int), e_n, tb));
                                lemma_after_tr_empty(st(**b, e_n, tb));
                                assert(st(*stmt, e0, te + (acc + tb)) == Some((printed(out@, out0), error_kind(r), env@, Seq::<HostResult>::empty())));
                            }
                            r
                        },
                        None => {
                            assert(lines(out@) =~= lines(old(out)@) + seq![]);
                            proof {
                                assert(acc + Seq::<HostResult>::empty() =~= acc);
                                assert(st_chain(bs, e1, acc + Seq::<HostResult>::empty()) == st_chain(bs.subrange(bs.len() as int, bs.len() as int), e_n, Seq::<HostResult>::empty()));
                                assert(st(*stmt, e0, te + acc) == Some((printed(out@, out0), None::<ErrorKind>, env@, Seq::<HostResult>::empty())));
                            }
                            Ok(())
                        },
                    }
                },
            }
        },
        _ => {
            assert(false);
            Ok(())
        },
    }
}

/// The kind of the error that stopped a run, if any.
pub open spec fn stop_kind(e: Option<Error>) -> Option<ErrorKind> {
    match e {
        Some(e) => Some(e.kind),
        None => None,
    }
}

/// A run of `ss` from `env` that ended in `after`, printed `out` and stopped with `err`, as
/// `exec_list` says wherever it determines the run.
pub open spec fn interpreted(
    ss: Seq<Stmt>,
    env: EnvModel,
    after: EnvModel,
    out: Seq<Seq<char>>,
    err: Option<ErrorKind>,
) -> bool {
    exec_list(ss, env) matches Some((o, k, e2)) ==> after == e2 && out == o && err == k
}

/// Runs statements in order against `env`, stopping at the first error: the lines printed and
/// that error. Wherever no floating-point computation or number formatting is involved, both
/// and the resulting scope stack are exactly those of `exec_list`.
pub fn interpret<A: Arithmetic>(statements: &Vec<Stmt>, env: &mut Environment, arith: &A) -> (r: (Vec<String>, Option<Error>))
    requires
        old(env)@.len() >= 1,
    ensures
        final(env)@.len() == old(env)@.len(),
        interpreted(statements@, old(env)@, final(env)@, lines(r.0@), stop_kind(r.1)),
        exists|tr: Seq<HostResult>|
            #[trigger] st_list(statements@, old(env)@, tr) == Some(
                (lines(r.0@), stop_kind(r.1), final(env)@, Seq::<HostResult>::empty()),
            ),
{
    let ghost ss = statements@;
    let mut out: Vec<String> = Vec::new();
    let ghost mut tracking = true;
    let ghost mut acc: Seq<HostResult> = Seq::empty();
    assert forall|x: Seq<HostResult>|
        st_list(ss, old(env)@, acc + x) == after_tr(lines(out@), #[trigger] st_list(ss.subrange(0, ss.len() as int), env@, x)) by {
        assert(acc + x =~= x);
        assert(ss.subrange(0, ss.len() as int) =~= ss);
        assert(lines(out@) =~= Seq::<Seq<char>>::empty());
        lemma_after_tr_empty(st_list(ss, old(env)@, x));
    }
    proof {
        assert(ss.subrange(0, ss.len() as int) =~= ss);
        assert(lines(out@) =~= seq![]);
        if let Some((o, err, e)) = exec_list(ss, old(env)@) {
            assert(seq![] + o =~= o);
        }
    }
    let mut i: usize = 0;
    while i < statements.len()
        invariant
            0 <= i <= ss.len(),
            ss == statements@,
            old(env)@.len() >= 1,
            env@.len() == old(env)@.len(),
            tracking ==> exec_list(ss, old(env)@) == after(
                lines(out@),
                exec_list(ss.subrange(i as int, ss.len() as int), env@),
            ),
            !tracking ==> exec_list(ss, old(env)@) is None,
            forall|x: Seq<HostResult>|
                st_list(ss, old(env)@, acc + x) == after_tr(lines(out@), #[trigger] st_list(ss.subrange(i as int, ss.len() as int), env@, x)),
        decreases ss.len() - i,
    {
        let ghost e_i = env@;
        let ghost out_i = out@;
        let ghost rest_i = ss.subrange(i as int, ss.len() as int);
        let ghost acc_i = acc;
        assert(forall|x: Seq<HostResult>|
            st_list(ss, old(env)@, acc + x) == after_tr(lines(out_i), #[trigger] st_list(rest_i, e_i, x)));
        let r = execute(&statements[i], env, arith, &mut out);
        let ghost ti = choose|t: Seq<HostResult>| st(ss[i as int], e_i, t) == Some((printed(out@, out_i), error_kind(r), env@, Seq::<HostResult>::empty()));
        proof {
            let o = printed(out@, out_i);
            lemma_lines_split(out@, out_i.len() as int);
            assert(out@.subrange(0, out_i.len() as int) == out_i);
            assert(lines(out@) == lines(out_i) + o);
            assert(rest_i[0] == ss[i as int]);
            assert(rest_i.drop_first() =~= ss.subrange(i + 1, ss.len() as int));
            if r is Ok {
                assert forall|x: Seq<HostResult>|
                    st_list(ss, old(env)@, (acc_i + ti) + x) == after_tr(lines(out@), #[trigger] st_list(ss.subrange(i + 1, ss.len() as int), env@, x)) by {
                    lemma_st_extend(ss[i as int], e_i, ti, x);
                    assert((acc_i + ti) + x =~= acc_i + (ti + x));
                    assert(Seq::<HostResult>::empty() + x =~= x);
                    assert(st_list(ss, old(env)@, acc_i + (ti + x)) == after_tr(lines(out_i), st_list(rest_i, e_i, ti + x)));
                    lemma_after_tr_assoc(lines(out_i), o, st_list(ss.subrange(i + 1, ss.len() as int), env@, x));
                }
                acc = acc_i + ti;
            } else {
                assert(st_list(rest_i, e_i, ti) == Some((o, error_kind(r), env@, Seq::<HostResult>::empty())));
                assert(st_list(ss, old(env)@, acc_i + ti) == after_tr(lines(out_i), st_list(rest_i, e_i, ti)));
                assert(st_list(ss, old(env)@, acc_i + ti) == Some((lines(out@), error_kind(r), env@, Seq::<HostResult>::empty())));
            }
        }
        proof {
            let rest = ss.subrange(i as int, ss.len() as int);
            assert(rest[0] == ss[i as int]);
            assert(rest.drop_first() =~= ss.subrange(i + 1, ss.len() as int));
            match exec_stmt(ss[i as int], e_i) {
                Some((o, None, e1)) => {
                    lemma_after_assoc(lines(out_i), o, exec_list(ss.subrange(i + 1, ss.len() as int), e1));
                },
                Some((o, Some(k), e1)) => {},
                None => {
                    tracking = false;
                },
            }
        }
        match r {
            Err(e) => {
                return (out, Some(e));
            },
            Ok(()) => {},
        }
        i = i + 1;
    }
    proof {
        assert(ss.subrange(ss.len() as int, ss.len() as int) =~= Seq::<Stmt>::empty());
        assert(lines(out@) + seq![] =~= lines(out@));
        assert(acc + Seq::<HostResult>::empty() =~= acc);
        assert(st_list(ss, old(env)@, acc + Seq::<HostResult>::empty()) == after_tr(lines(out@), st_list(ss.subrange(ss.len() as int, ss.len() as int), env@, Seq::<HostResult>::empty())));
    }
    (out, None)
}

} // verus!
