use vstd::prelude::*;
use crate::ast::{stmts_view, Stmt};
use crate::environment::Environment;
use crate::error::{diags, number_failures, reported, Error};
use crate::interpreter::{interpret, interpreted, lines, st_list, HostResult};
use crate::parser::{ends_in_eof, p_program, parse, parse_error_ok};
use crate::token::{Token, TokenKind};
use crate::tokenizer::{failures_at_numbers, number_tokens, scan_error_ok, scan_errors_from, scan_from, shapes, tokenize};
use crate::value::Arithmetic;

verus! {

/// The phase in which a run stopped.
#[derive(Clone, Copy, Debug, PartialEq, Eq, Structural)]
pub enum Phase {
    Tokenize,
    Parse,
    Evaluate,
}

/// What a run of a source text produced.
#[derive(Debug)]
pub struct Report {
    /// The lines printed, in order.
    pub output: Vec<String>,
    /// The diagnostics of the phase that stopped the run; empty when it completed.
    pub errors: Vec<Error>,
    /// The phase that stopped the run, if any.
    pub failed: Option<Phase>,
}

/// Every diagnostic is either reported with its message or a failure to read a number.
proof fn lemma_failures_counted(es: Seq<Error>)
    ensures
        es.len() == reported(es).len() + number_failures(es),
    decreases es.len(),
{
    if es.len() > 0 {
        lemma_failures_counted(es.drop_last());
    }
}

/// Tokens that end in `Eof` and place no number before it hold no number token.
proof fn lemma_no_numbers(ts: Seq<Token>)
    ensures
        (ts.len() >= 1 && ts.last().kind == TokenKind::Eof && forall|i: int|
            0 <= i < ts.len() - 1 ==> (#[trigger] shapes(ts.drop_last())[i]).0 != TokenKind::Number)
            ==> number_tokens(ts) == 0,
    decreases ts.len(),
{
    if ts.len() >= 1 && ts.last().kind == TokenKind::Eof && forall|i: int|
        0 <= i < ts.len() - 1 ==> (#[trigger] shapes(ts.drop_last())[i]).0 != TokenKind::Number {
        let body = ts.drop_last();
        assert forall|k: int| 0 <= k <= body.len() implies number_tokens(#[trigger] body.subrange(0, k)) == 0 by {
            lemma_prefix_no_numbers(body, k);
        }
        assert(body.subrange(0, body.len() as int) =~= body);
    }
}

proof fn lemma_prefix_no_numbers(body: Seq<Token>, k: int)
    requires
        0 <= k <= body.len(),
        forall|i: int| 0 <= i < body.len() ==> (#[trigger] shapes(body)[i]).0 != TokenKind::Number,
    ensures
        number_tokens(body.subrange(0, k)) == 0,
    decreases k,
{
    if k > 0 {
        lemma_prefix_no_numbers(body, k - 1);
        assert(body.subrange(0, k).drop_last() =~= body.subrange(0, k - 1));
        assert(shapes(body)[k - 1].0 == body[k - 1].kind);
    }
}

/// Tokenizes, parses and evaluates a source text against `env`. Evaluation only starts when
/// tokenizing and parsing reported nothing; it stops at the first runtime error.
pub fn run<A: Arithmetic>(source: &str, env: &mut Environment, arith: &A) -> (r: Report)
    requires
        source@.len() < usize::MAX,
        old(env)@.len() >= 1,
    ensures
        final(env)@.len() == old(env)@.len(),
        r.failed is None <==> r.errors@.len() == 0,
        r.failed == Some(Phase::Tokenize) ==> final(env)@ == old(env)@ && r.output@.len() == 0 && forall|i: int|
            0 <= i < r.errors@.len() ==> scan_error_ok(#[trigger] r.errors@[i]),
        r.failed == Some(Phase::Parse) ==> final(env)@ == old(env)@ && r.output@.len() == 0 && forall|i: int|
            0 <= i < r.errors@.len() ==> parse_error_ok(#[trigger] r.errors@[i]),
        r.failed == Some(Phase::Evaluate) ==> r.errors@.len() == 1,
        scan_errors_from(source@, 0, 1, 0).len() > 0 ==> r.failed == Some(Phase::Tokenize),
        scan_errors_from(source@, 0, 1, 0).len() == 0 && (forall|i: int|
            0 <= i < scan_from(source@, 0, 1, 0).len() ==> (#[trigger] scan_from(source@, 0, 1, 0)[i]).0
                != TokenKind::Number) ==> r.failed != Some(Phase::Tokenize),
        r.failed == Some(Phase::Tokenize) ==> reported(r.errors@) == scan_errors_from(source@, 0, 1, 0),
        exists|tokens: Seq<Token>|
            {
                &&& ends_in_eof(tokens)
                &&& #[trigger] shapes(tokens.drop_last()) == scan_from(source@, 0, 1, 0)
                &&& (r.failed == Some(Phase::Tokenize) ==> number_failures(r.errors@) <= number_tokens(
                    tokens,
                ) && failures_at_numbers(tokens, r.errors@))
                &&& (r.failed == Some(Phase::Parse) ==> p_program(tokens, 0).1.len() > 0 && diags(
                    r.errors@,
                ) == p_program(tokens, 0).1)
                &&& (r.failed != Some(Phase::Tokenize) && r.failed != Some(Phase::Parse) ==> p_program(
                    tokens,
                    0,
                ).1.len() == 0 && exists|stmts: Seq<Stmt>|
                    #[trigger] stmts_view(stmts) == p_program(tokens, 0).0 && interpreted(
                        stmts,
                        old(env)@,
                        final(env)@,
                        lines(r.output@),
                        if r.failed == Some(Phase::Evaluate) {
                            Some(r.errors@[0].kind)
                        } else {
                            None
                        },
                    ) && exists|tr: Seq<HostResult>|
                        #[trigger] st_list(stmts, old(env)@, tr) == Some(
                            (
                                lines(r.output@),
                                if r.failed == Some(Phase::Evaluate) {
                                    Some(r.errors@[0].kind)
                                } else {
                                    None
                                },
                                final(env)@,
                                Seq::<HostResult>::empty(),
                            ),
                        ))
            },
{
    let (tokens, scan_errors) = tokenize(source, arith);
    proof {
        lemma_failures_counted(scan_errors@);
        lemma_no_numbers(tokens@);
    }
    if scan_errors.len() > 0 {
        return Report { output: Vec::new(), errors: scan_errors, failed: Some(Phase::Tokenize) };
    }
    let (statements, parse_errors) = parse(&tokens);
    assert(parse_errors@.len() == p_program(tokens@, 0).1.len());
    if parse_errors.len() > 0 {
        return Report { output: Vec::new(), errors: parse_errors, failed: Some(Phase::Parse) };
    }
    let (output, error) = interpret(&statements, env, arith);
    assert(stmts_view(statements@) == p_program(tokens@, 0).0);
    match error {
        Some(e) => {
            let ghost k = e.kind;
            let mut errors: Vec<Error> = Vec::new();
            errors.push(e);
            assert(errors@[0].kind == k);
            Report { output, errors, failed: Some(Phase::Evaluate) }
        },
        None => Report { output, errors: Vec::new(), failed: None },
    }
}

} // verus!
