use vstd::prelude::*;
use crate::ast::{
    branches_view, lemma_branches_view_push, lemma_stmts_view_push, stmt_view, stmts_view,
    ElseIfBranch, Expr, Stmt, StmtModel,
};
use crate::error::{diags, Diag, Error, ErrorKind};
use crate::token::{Token, TokenKind};
use crate::value::Value;

verus! {

/// What holds of every diagnostic of the parser.
pub open spec fn parse_error_ok(e: Error) -> bool {
    &&& (e.kind == ErrorKind::UnexpectedToken || e.kind == ErrorKind::MissingSemicolon || e.kind
        == ErrorKind::MissingBrace)
    &&& e.line is Some
}

/// A token sequence that the parser accepts: it ends in `Eof`.
pub open spec fn ends_in_eof(tokens: Seq<Token>) -> bool {
    tokens.len() >= 1 && tokens.last().kind == TokenKind::Eof
}

/// The kinds after which the parser resumes when it recovers from an error.
pub open spec fn starts_declaration(k: TokenKind) -> bool {
    k == TokenKind::Var || k == TokenKind::Class || k == TokenKind::Fun || k == TokenKind::For || k
        == TokenKind::If || k == TokenKind::While || k == TokenKind::Print || k == TokenKind::Return
}

/// The shape that the parser promises of each statement it builds: an assignment statement
/// holds an assignment expression, and every branch of an `if` is a block.
pub open spec fn well_shaped(s: Stmt) -> bool {
    match s {
        Stmt::AssignmentStmt { expression } => *expression is AssignmentExpression,
        Stmt::IfStmt { then_branch, else_if_branches, else_branch, .. } => {
            &&& *then_branch is BlockStmt
            &&& forall|i: int|
                0 <= i < else_if_branches@.len() ==> *(#[trigger] else_if_branches@[i]).then_branch is BlockStmt
            &&& (else_branch matches Some(b) ==> *b is BlockStmt)
        },
        _ => true,
    }
}

/// An expression, the index just past it, and the diagnostics reported while reading it.
pub type Parsed = (Expr, int, Seq<Diag>);

/// The index after `p`: the `Eof` is never passed.
pub open spec fn adv(ts: Seq<Token>, p: int) -> int {
    if ts[p].kind == TokenKind::Eof {
        p
    } else {
        p + 1
    }
}

/// The last consumed token before `p`; the first token at the start.
pub open spec fn prev(ts: Seq<Token>, p: int) -> Token {
    if p == 0 {
        ts[0]
    } else {
        ts[p - 1]
    }
}

/// A diagnostic placed at a token.
pub open spec fn diag_at(kind: ErrorKind, t: Token) -> Diag {
    (kind, Some(t.line), t.column)
}

/// The operators of a binary precedence level, from 3 (`/ *`) up to 8 (`or`).
pub open spec fn level_op(level: nat, k: TokenKind) -> bool {
    if level == 3 {
        k == TokenKind::Slash || k == TokenKind::Star
    } else if level == 4 {
        k == TokenKind::Minus || k == TokenKind::Plus
    } else if level == 5 {
        k == TokenKind::Greater || k == TokenKind::GreaterEqual || k == TokenKind::Less || k
            == TokenKind::LessEqual
    } else if level == 6 {
        k == TokenKind::BangEqual || k == TokenKind::EqualEqual
    } else if level == 7 {
        k == TokenKind::And
    } else {
        k == TokenKind::Or
    }
}

/// The node that an operator of a level builds: logical for `and` / `or`, binary otherwise.
pub open spec fn level_node(level: nat, left: Expr, op: Token, right: Expr) -> Expr {
    if level >= 7 {
        Expr::LogicalExpression { left: Box::new(left), operator: op, right: Box::new(right) }
    } else {
        Expr::BinaryExpression { left: Box::new(left), operator: op, right: Box::new(right) }
    }
}

pub open spec fn nothing(p: int) -> Parsed {
    (Expr::LiteralExpression { value: None }, p, seq![])
}

/// `expression → assignment`.
pub open spec fn p_expression(ts: Seq<Token>, p: int) -> Parsed
    decreases ts.len() - p, 20nat,
{
    if p < 0 || p >= ts.len() {
        nothing(p)
    } else {
        p_assignment(ts, p)
    }
}

/// `assignment → IDENT "=" assignment | logic_or`; another target before `=` is reported.
pub open spec fn p_assignment(ts: Seq<Token>, p: int) -> Parsed
    decreases ts.len() - p, 19nat,
{
    if p < 0 || p >= ts.len() {
        nothing(p)
    } else {
        let (e, p1, d1) = p_binary(ts, p, 8);
        if p1 < p || p1 >= ts.len() || ts[p1].kind != TokenKind::Equal {
            (e, p1, d1)
        } else {
            let (v, p2, d2) = p_assignment(ts, p1 + 1);
            match e {
                Expr::VariableResolutionExpression { name } => (
                    Expr::AssignmentExpression { name, value: Box::new(v) },
                    p2,
                    d1 + d2,
                ),
                _ => (e, p2, d1 + d2 + seq![diag_at(ErrorKind::UnexpectedToken, ts[p1])]),
            }
        }
    }
}

/// A binary level: operands of the level below, joined left to right by its operators.
pub open spec fn p_binary(ts: Seq<Token>, p: int, level: nat) -> Parsed
    decreases ts.len() - p, 2 * level + 1,
{
    if p < 0 || p >= ts.len() || level < 3 || level > 8 {
        nothing(p)
    } else {
        let (e, p1, d1) = if level == 3 {
            p_unary(ts, p)
        } else {
            p_binary(ts, p, (level - 1) as nat)
        };
        if p1 < p || p1 >= ts.len() {
            (e, p1, d1)
        } else {
            p_rest(ts, p1, level, e, d1)
        }
    }
}

/// The rest of a binary level after its left operand `left`, with diagnostics `d` so far.
pub open spec fn p_rest(ts: Seq<Token>, p: int, level: nat, left: Expr, d: Seq<Diag>) -> Parsed
    decreases ts.len() - p, 2 * level,
{
    if p < 0 || p >= ts.len() || level < 3 || level > 8 || !level_op(level, ts[p].kind) {
        (left, p, d)
    } else {
        let (r, p2, d2) = if level == 3 {
            p_unary(ts, p + 1)
        } else {
            p_binary(ts, p + 1, (level - 1) as nat)
        };
        let node = level_node(level, left, ts[p], r);
        if p2 <= p || p2 > ts.len() {
            (node, p2, d + d2)
        } else {
            p_rest(ts, p2, level, node, d + d2)
        }
    }
}

/// `unary → ("!" | "-") unary | primary`.
pub open spec fn p_unary(ts: Seq<Token>, p: int) -> Parsed
    decreases ts.len() - p, 2nat,
{
    if p < 0 || p >= ts.len() {
        nothing(p)
    } else if ts[p].kind == TokenKind::Bang || ts[p].kind == TokenKind::Minus {
        let (r, p2, d) = p_unary(ts, adv(ts, p));
        (Expr::UnaryExpression { operator: ts[p], right: Box::new(r) }, p2, d)
    } else {
        p_primary(ts, p)
    }
}

/// Literals, names and parenthesised expressions; any other token is reported and skipped.
pub open spec fn p_primary(ts: Seq<Token>, p: int) -> Parsed
    decreases ts.len() - p, 1nat,
{
    if p < 0 || p >= ts.len() {
        nothing(p)
    } else {
        let k = ts[p].kind;
        if k == TokenKind::True {
            (Expr::LiteralExpression { value: Some(Value::Boolean(true)) }, adv(ts, p), seq![])
        } else if k == TokenKind::False {
            (Expr::LiteralExpression { value: Some(Value::Boolean(false)) }, adv(ts, p), seq![])
        } else if k == TokenKind::Nil {
            (Expr::LiteralExpression { value: Some(Value::Nil) }, adv(ts, p), seq![])
        } else if k == TokenKind::String || k == TokenKind::Number {
            (Expr::LiteralExpression { value: ts[p].literal }, adv(ts, p), seq![])
        } else if k == TokenKind::Identifier {
            (Expr::VariableResolutionExpression { name: ts[p] }, adv(ts, p), seq![])
        } else if k == TokenKind::LeftParen {
            let (e, p2, d2) = p_expression(ts, adv(ts, p));
            let g = Expr::GroupingExpression { expression: Box::new(e) };
            if 0 <= p2 < ts.len() && ts[p2].kind == TokenKind::RightParen {
                (g, adv(ts, p2), d2)
            } else {
                (g, p2, d2 + seq![diag_at(ErrorKind::UnexpectedToken, ts[p2])])
            }
        } else {
            (
                Expr::LiteralExpression { value: None },
                adv(ts, p),
                seq![diag_at(ErrorKind::UnexpectedToken, ts[p])],
            )
        }
    }
}

/// Where recovery from an error resumes: just past the next `;`, or at the start of the next
/// declaration, or at the end.
pub open spec fn p_sync(ts: Seq<Token>, p: int) -> int
    decreases ts.len() - p,
{
    if p < 0 || p >= ts.len() || ts[p].kind == TokenKind::Eof {
        p
    } else if ts[p].kind == TokenKind::Semicolon {
        p + 1
    } else if starts_declaration(ts[p].kind) {
        p
    } else {
        p_sync(ts, p + 1)
    }
}

/// The `;` that ends a statement: consumed, or reported as missing.
pub open spec fn p_semicolon(ts: Seq<Token>, p: int) -> (int, Seq<Diag>) {
    if ts[p].kind == TokenKind::Semicolon {
        (adv(ts, p), seq![])
    } else {
        (p, seq![(ErrorKind::MissingSemicolon, Some(prev(ts, p).line), ts[p].column)])
    }
}

/// A statement, the index just past it, and the diagnostics reported while reading it.
pub type ParsedStmt = (StmtModel, int, Seq<Diag>);

/// The kind of the token after `p`; `Eof` past the end.
pub open spec fn next_kind(ts: Seq<Token>, p: int) -> TokenKind {
    if p < ts.len() - 1 {
        ts[p + 1].kind
    } else {
        TokenKind::Eof
    }
}

/// A statement that could not be read at `p`: reported there, and skipped to where recovery
/// resumes.
pub open spec fn p_invalid(ts: Seq<Token>, p: int, d: Seq<Diag>) -> ParsedStmt {
    (
        StmtModel::Invalid(prev(ts, p).line),
        p_sync(ts, p),
        d + seq![diag_at(ErrorKind::UnexpectedToken, prev(ts, p))],
    )
}

/// `"var" IDENT ( "=" expression )? ";"`, at a `var`.
pub open spec fn p_var_declaration(ts: Seq<Token>, p: int) -> ParsedStmt {
    let p1 = adv(ts, p);
    if ts[p1].kind != TokenKind::Identifier {
        p_invalid(ts, p1, seq![])
    } else {
        let p2 = adv(ts, p1);
        if ts[p2].kind == TokenKind::Equal {
            let (e, p3, d3) = p_expression(ts, adv(ts, p2));
            let (p4, d4) = p_semicolon(ts, p3);
            (StmtModel::VarDecl(ts[p1], e), p4, d3 + d4)
        } else if ts[p2].kind == TokenKind::Semicolon {
            let (p4, d4) = p_semicolon(ts, p2);
            (StmtModel::VarDecl(ts[p1], Expr::LiteralExpression { value: None }), p4, d4)
        } else {
            p_invalid(ts, p2, seq![])
        }
    }
}

/// Whether `p` stands on `else if`, as one token or as two.
pub open spec fn at_else_if(ts: Seq<Token>, p: int) -> bool {
    ts[p].kind == TokenKind::ElseIf || (ts[p].kind == TokenKind::Else && next_kind(ts, p)
        == TokenKind::If)
}

/// The `else if` arms read from `p`: their conditions and blocks, the index after them, the
/// diagnostics, and the line of the arm that could not be read, if one could not.
pub type ParsedArms = (Seq<(Expr, StmtModel)>, int, Seq<Diag>, Option<usize>);

/// `declaration → varDecl | statement`.
pub open spec fn p_declaration(ts: Seq<Token>, p: int) -> ParsedStmt
    decreases ts.len() - p, 34nat,
{
    if p < 0 || p >= ts.len() {
        (StmtModel::Reserved, p, seq![])
    } else if ts[p].kind == TokenKind::Var {
        p_var_declaration(ts, p)
    } else {
        p_statement(ts, p)
    }
}

/// `statement → ifStmt | printStmt ";" | blockStmt | assignStmt ";" | exprStmt ";"`.
pub open spec fn p_statement(ts: Seq<Token>, p: int) -> ParsedStmt
    decreases ts.len() - p, 33nat,
{
    if p < 0 || p >= ts.len() {
        (StmtModel::Reserved, p, seq![])
    } else {
        let k = ts[p].kind;
        if k == TokenKind::If {
            p_if(ts, p)
        } else if k == TokenKind::Print {
            let (e, p2, d2) = p_expression(ts, adv(ts, p));
            let (p3, d3) = p_semicolon(ts, p2);
            (StmtModel::Print(e), p3, d2 + d3)
        } else if k == TokenKind::LeftBrace {
            p_block(ts, p)
        } else if k == TokenKind::Identifier && next_kind(ts, p) == TokenKind::Equal {
            let (e, p2, d2) = p_assignment(ts, p);
            let (p3, d3) = p_semicolon(ts, p2);
            (
                if e is AssignmentExpression {
                    StmtModel::Assignment(e)
                } else {
                    StmtModel::Expression(e)
                },
                p3,
                d2 + d3,
            )
        } else {
            let (e, p2, d2) = p_expression(ts, p);
            let (p3, d3) = p_semicolon(ts, p2);
            (StmtModel::Expression(e), p3, d2 + d3)
        }
    }
}

/// `blockStmt → "{" declaration* "}"`, at a `{`.
pub open spec fn p_block(ts: Seq<Token>, p: int) -> ParsedStmt
    decreases ts.len() - p, 31nat,
{
    if p < 0 || p >= ts.len() || ts[p].kind == TokenKind::Eof {
        (StmtModel::Block(seq![]), p, seq![])
    } else {
        let (items, p2, d) = p_items(ts, p + 1);
        if 0 <= p2 < ts.len() && ts[p2].kind == TokenKind::RightBrace {
            (StmtModel::Block(items), adv(ts, p2), d)
        } else {
            (
                StmtModel::Block(items),
                p2,
                d + seq![diag_at(ErrorKind::MissingBrace, prev(ts, p2))],
            )
        }
    }
}

/// The declarations of a block, up to its `}` or the end.
pub open spec fn p_items(ts: Seq<Token>, p: int) -> (Seq<StmtModel>, int, Seq<Diag>)
    decreases ts.len() - p, 35nat,
{
    if p < 0 || p >= ts.len() || ts[p].kind == TokenKind::RightBrace || ts[p].kind
        == TokenKind::Eof {
        (seq![], p, seq![])
    } else {
        let (st, p2, d2) = p_declaration(ts, p);
        if p2 <= p || p2 > ts.len() {
            (seq![st], p2, d2)
        } else {
            let (rest, p3, d3) = p_items(ts, p2);
            (seq![st] + rest, p3, d2 + d3)
        }
    }
}

/// `ifStmt → "if" expression block ( "else" "if" expression block )* ( "else" block )?`, at an
/// `if`; a missing block makes the whole statement one that could not be read.
pub open spec fn p_if(ts: Seq<Token>, p: int) -> ParsedStmt
    decreases ts.len() - p, 32nat,
{
    if p < 0 || p >= ts.len() || ts[p].kind == TokenKind::Eof {
        (StmtModel::Reserved, p, seq![])
    } else {
        let (c, p2, d2) = p_expression(ts, p + 1);
        if !(0 <= p2 < ts.len()) || p2 <= p {
            (StmtModel::Reserved, p2, d2)
        } else if ts[p2].kind != TokenKind::LeftBrace {
            p_invalid(ts, p2, d2)
        } else {
            let (then_b, p3, d3) = p_block(ts, p2);
            if !(0 <= p3 < ts.len()) || p3 <= p {
                (StmtModel::Reserved, p3, d2 + d3)
            } else {
                let (arms, p4, d4, failed) = p_arms(ts, p3);
                if failed is Some {
                    (StmtModel::Invalid(failed->0), p4, d2 + d3 + d4)
                } else if !(0 <= p4 < ts.len()) || p4 <= p {
                    (StmtModel::Reserved, p4, d2 + d3 + d4)
                } else if ts[p4].kind == TokenKind::Else {
                    let p5 = adv(ts, p4);
                    if ts[p5].kind != TokenKind::LeftBrace {
                        p_invalid(ts, p5, d2 + d3 + d4)
                    } else {
                        let (else_b, p6, d6) = p_block(ts, p5);
                        (
                            StmtModel::If(c, Box::new(then_b), arms, Some(Box::new(else_b))),
                            p6,
                            d2 + d3 + d4 + d6,
                        )
                    }
                } else {
                    (StmtModel::If(c, Box::new(then_b), arms, None), p4, d2 + d3 + d4)
                }
            }
        }
    }
}

/// One `else if` arm at `p`: its condition and block, the index after it, its diagnostics,
/// and the line at which it could not be read, if it could not.
pub open spec fn p_arm(ts: Seq<Token>, p: int) -> (Option<(Expr, StmtModel)>, int, Seq<Diag>, Option<usize>)
    decreases ts.len() - p, 36nat,
{
    if p < 0 || p >= ts.len() {
        (None, p, seq![], None)
    } else {
        let p1 = if ts[p].kind == TokenKind::Else {
            adv(ts, adv(ts, p))
        } else {
            adv(ts, p)
        };
        let (c, p2, d2) = p_expression(ts, p1);
        if !(0 <= p2 < ts.len()) || p2 <= p {
            (None, p2, d2, None)
        } else if ts[p2].kind != TokenKind::LeftBrace {
            let (_, p3, d3) = p_invalid(ts, p2, d2);
            (None, p3, d3, Some(prev(ts, p2).line))
        } else {
            let (body, p3, d3) = p_block(ts, p2);
            (Some((c, body)), p3, d2 + d3, None)
        }
    }
}

/// The `else if` arms from `p` on.
pub open spec fn p_arms(ts: Seq<Token>, p: int) -> ParsedArms
    decreases ts.len() - p, 37nat,
{
    if p < 0 || p >= ts.len() || !at_else_if(ts, p) {
        (seq![], p, seq![], None)
    } else {
        let (arm, p3, d3, failed) = p_arm(ts, p);
        if failed is Some || arm is None || p3 <= p || p3 > ts.len() {
            (seq![], p3, d3, failed)
        } else {
            let (rest, p4, d4, failed4) = p_arms(ts, p3);
            (seq![arm->0] + rest, p4, d3 + d4, failed4)
        }
    }
}

/// The statements and diagnostics of a whole program read from `p`.
pub open spec fn p_program(ts: Seq<Token>, p: int) -> (Seq<StmtModel>, Seq<Diag>)
    decreases ts.len() - p,
{
    if p < 0 || p >= ts.len() || ts[p].kind == TokenKind::Eof {
        (seq![], seq![])
    } else {
        let (st, p2, d2) = p_declaration(ts, p);
        if p2 <= p || p2 > ts.len() {
            (seq![st], d2)
        } else {
            let (rest, d3) = p_program(ts, p2);
            (seq![st] + rest, d2 + d3)
        }
    }
}

/// A recursive-descent parser over a token sequence that ends in `Eof`.
pub struct Parser<'a> {
    tokens: &'a Vec<Token>,
    current: usize,
    errors: Vec<Error>,
}

impl<'a> Parser<'a> {
    pub closed spec fn wf(&self) -> bool {
        &&& ends_in_eof(self.tokens@)
        &&& self.current < self.tokens@.len()
        &&& forall|i: int| 0 <= i < self.errors@.len() ==> parse_error_ok(#[trigger] self.errors@[i])
    }

    pub closed spec fn pos(&self) -> int {
        self.current as int
    }

    pub closed spec fn token_seq(&self) -> Seq<Token> {
        self.tokens@
    }

    pub closed spec fn errs(&self) -> Seq<Error> {
        self.errors@
    }

    pub closed spec fn at_end(&self) -> bool {
        self.tokens@[self.current as int].kind == TokenKind::Eof
    }

    /// How a rule leaves the parser: on the same tokens, never backwards, and past at least one
    /// token when it started before the end.
    pub open spec fn moved(old: Parser<'a>, new: Parser<'a>) -> bool {
        &&& new.wf()
        &&& new.token_seq() == old.token_seq()
        &&& new.pos() >= old.pos()
        &&& (!old.at_end() ==> new.pos() > old.pos())
    }

    pub fn new(tokens: &'a Vec<Token>) -> (r: Parser<'a>)
        requires
            ends_in_eof(tokens@),
        ensures
            r.wf(),
            r.token_seq() == tokens@,
            r.pos() == 0,
            r.errs().len() == 0,
    {
        Parser { tokens, current: 0, errors: Vec::new() }
    }

    fn is_at_end(&self) -> (r: bool)
        requires
            self.wf(),
        ensures
            r == self.at_end(),
    {
        self.tokens[self.current].kind == TokenKind::Eof
    }

    fn peek(&self) -> (r: &Token)
        requires
            self.wf(),
        ensures
            *r == self.tokens@[self.current as int],
    {
        &self.tokens[self.current]
    }

    fn peek_kind(&self) -> (r: TokenKind)
        requires
            self.wf(),
        ensures
            r == self.tokens@[self.current as int].kind,
            self.at_end() <==> r == TokenKind::Eof,
    {
        self.tokens[self.current].kind
    }

    /// The kind of the token after the current one; `Eof` past the end.
    fn peek_next_kind(&self) -> (r: TokenKind)
        requires
            self.wf(),
        ensures
            r == next_kind(self.token_seq(), self.pos()),
    {
        if self.current < self.tokens.len() - 1 {
            self.tokens[self.current + 1].kind
        } else {
            TokenKind::Eof
        }
    }

    /// The last consumed token; the first token before anything was consumed.
    fn previous(&self) -> (r: &Token)
        requires
            self.wf(),
        ensures
            *r == prev(self.token_seq(), self.pos()),
    {
        if self.current == 0 {
            &self.tokens[0]
        } else {
            &self.tokens[self.current - 1]
        }
    }

    /// Moves past the current token, except at the end.
    fn advance(&mut self)
        requires
            old(self).wf(),
        ensures
            Self::moved(*old(self), *final(self)),
            final(self).errs() == old(self).errs(),
            !old(self).at_end() ==> final(self).pos() == old(self).pos() + 1,
            old(self).at_end() ==> final(self).pos() == old(self).pos(),
    {
        if !self.is_at_end() {
            let n = self.tokens.len();
            assert(self.current != n - 1);
            self.current = self.current + 1;
        }
    }

    fn report(&mut self, kind: ErrorKind, msg: &str, line: usize, column: usize)
        requires
            old(self).wf(),
            kind == ErrorKind::UnexpectedToken || kind == ErrorKind::MissingSemicolon || kind
                == ErrorKind::MissingBrace,
        ensures
            final(self).wf(),
            final(self).token_seq() == old(self).token_seq(),
            final(self).pos() == old(self).pos(),
            final(self).at_end() == old(self).at_end(),
            final(self).errs().len() == old(self).errs().len() + 1,
            final(self).errs().last().kind == kind,
            diags(final(self).errs()) == diags(old(self).errs()).push((kind, Some(line), column)),
    {
        let e = Error::new(kind, String::from_str(msg), Some(line), column, None);
        self.errors.push(e);
    }

    /// Discards tokens up to and including the next `;`, or up to the start of the next
    /// declaration, or to the end.
    fn synchronise(&mut self)
        requires
            old(self).wf(),
        ensures
            final(self).wf(),
            final(self).token_seq() == old(self).token_seq(),
            final(self).pos() >= old(self).pos(),
            final(self).errs() == old(self).errs(),
            final(self).pos() == p_sync(old(self).token_seq(), old(self).pos()),
    {
        while !self.is_at_end()
            invariant
                self.wf(),
                self.token_seq() == old(self).token_seq(),
                self.pos() >= old(self).pos(),
                self.errs() == old(self).errs(),
                p_sync(self.token_seq(), self.pos()) == p_sync(old(self).token_seq(), old(self).pos()),
            decreases self.tokens@.len() - self.current,
        {
            let k = self.peek_kind();
            if k == TokenKind::Semicolon {
                self.advance();
                return ;
            }
            if k == TokenKind::Var || k == TokenKind::Class || k == TokenKind::Fun || k
                == TokenKind::For || k == TokenKind::If || k == TokenKind::While || k
                == TokenKind::Print || k == TokenKind::Return {
                return ;
            }
            self.advance();
        }
    }

    /// Consumes the `;` that ends a statement, or reports its absence.
    fn consume_semicolon(&mut self)
        requires
            old(self).wf(),
        ensures
            final(self).wf(),
            final(self).token_seq() == old(self).token_seq(),
            final(self).pos() >= old(self).pos(),
            final(self).pos() == p_semicolon(old(self).token_seq(), old(self).pos()).0,
            diags(final(self).errs()) == diags(old(self).errs()) + p_semicolon(old(self).token_seq(), old(self).pos()).1,
    {
        if self.peek_kind() != TokenKind::Semicolon {
            let line = self.previous().line;
            let column = self.peek().column;
            self.report(ErrorKind::MissingSemicolon, "Expected \";\" after expression.", line, column);
            assert(diags(self.errs()) =~= diags(old(self).errs()) + seq![(ErrorKind::MissingSemicolon, Some(line), column)]);
        } else {
            self.advance();
            assert(diags(self.errs()) =~= diags(old(self).errs()) + seq![]);
        }
    }
}

impl<'a> Parser<'a> {
    /// The rule read `e` from where `old` stood, left the parser at `res.1`, and reported
    /// exactly `res.2`.
    pub open spec fn parsed_as(old: Parser<'a>, new: Parser<'a>, e: Expr, res: Parsed) -> bool {
        &&& e == res.0
        &&& new.pos() == res.1
        &&& diags(new.errs()) == diags(old.errs()) + res.2
    }

    fn expression_rule(&mut self) -> (r: Box<Expr>)
        requires
            old(self).wf(),
        ensures
            Self::moved(*old(self), *final(self)),
            Self::parsed_as(*old(self), *final(self), *r, p_expression(old(self).token_seq(), old(self).pos())),
        decreases old(self).token_seq().len() - old(self).pos(), 10nat,
    {
        self.assignment_rule()
    }

    /// `IDENT "=" assignment | logic_or`: right-associative assignment to a name.
    fn assignment_rule(&mut self) -> (r: Box<Expr>)
        requires
            old(self).wf(),
        ensures
            Self::moved(*old(self), *final(self)),
            Self::parsed_as(*old(self), *final(self), *r, p_assignment(old(self).token_seq(), old(self).pos())),
        decreases old(self).token_seq().len() - old(self).pos(), 9nat,
    {
        let ghost ts = self.token_seq();
        let ghost p = self.pos();
        let ghost d0 = diags(self.errs());
        let expr = self.logical_or_rule();
        let ghost r1 = p_binary(ts, p, 8);
        let ghost p1 = self.pos();
        let ghost d1 = diags(self.errs());
        assert(*expr == r1.0 && p1 == r1.1 && d1 == d0 + r1.2);
        if self.peek_kind() == TokenKind::Equal {
            let equals_line = self.peek().line;
            let equals_column = self.peek().column;
            self.advance();
            let value = self.assignment_rule();
            let ghost r2 = p_assignment(ts, p1 + 1);
            let ghost d2 = diags(self.errs());
            assert(*value == r2.0 && self.pos() == r2.1 && d2 == d1 + r2.2);
            assert(d2 =~= d0 + (r1.2 + r2.2));
            match *expr {
                Expr::VariableResolutionExpression { name } => {
                    return Box::new(Expr::AssignmentExpression { name, value });
                },
                other => {
                    self.report(
                        ErrorKind::UnexpectedToken,
                        "Invalid assignment target.",
                        equals_line,
                        equals_column,
                    );
                    assert(diags(self.errs()) =~= d0 + (r1.2 + r2.2 + seq![diag_at(ErrorKind::UnexpectedToken, ts[p1])]));
                    return Box::new(other);
                },
            }
        }
        expr
    }

    /// `logic_and ( "or" logic_and )*`, left-associative.
    fn logical_or_rule(&mut self) -> (r: Box<Expr>)
        requires
            old(self).wf(),
        ensures
            Self::moved(*old(self), *final(self)),
            Self::parsed_as(*old(self), *final(self), *r, p_binary(old(self).token_seq(), old(self).pos(), 8)),
        decreases old(self).token_seq().len() - old(self).pos(), 8nat,
    {
        let ghost ts = self.token_seq();
        let ghost p = self.pos();
        let ghost d0 = diags(self.errs());
        let mut expr = self.logical_and_rule();
        let ghost first = p_binary(ts, p, 7);
        let ghost mut acc = first.2;
        assert(diags(self.errs()) == d0 + acc);
        while self.peek_kind() == TokenKind::Or
            invariant
                Self::moved(*old(self), *self),
                ts == old(self).token_seq(),
                p == old(self).pos(),
                d0 == diags(old(self).errs()),
                diags(self.errs()) == d0 + acc,
                p_binary(ts, p, 8) == p_rest(ts, self.pos(), 8, *expr, acc),
            decreases self.token_seq().len() - self.pos(),
        {
            let ghost pb = self.pos();
            let ghost acc_b = acc;
            let ghost left_b = *expr;
            let operator = self.peek().duplicate();
            self.advance();
            let ghost d1 = diags(self.errs());
            let right = self.logical_and_rule();
            let ghost rr = p_binary(ts, pb + 1, 7);
            assert(*right == rr.0 && self.pos() == rr.1 && diags(self.errs()) == d1 + rr.2);
            proof {
                assert(diags(self.errs()) =~= d0 + (acc_b + rr.2));
                acc = acc_b + rr.2;
            }
            expr = Box::new(Expr::LogicalExpression { left: expr, operator, right });
            assert(*expr == level_node(8, left_b, ts[pb], rr.0));
            assert(p_rest(ts, pb, 8, left_b, acc_b) == p_rest(ts, self.pos(), 8, *expr, acc));
        }
        expr
    }

    /// `equality ( "and" equality )*`, left-associative.
    fn logical_and_rule(&mut self) -> (r: Box<Expr>)
        requires
            old(self).wf(),
        ensures
            Self::moved(*old(self), *final(self)),
            Self::parsed_as(*old(self), *final(self), *r, p_binary(old(self).token_seq(), old(self).pos(), 7)),
        decreases old(self).token_seq().len() - old(self).pos(), 7nat,
    {
        let ghost ts = self.token_seq();
        let ghost p = self.pos();
        let ghost d0 = diags(self.errs());
        let mut expr = self.equality_rule();
        let ghost first = p_binary(ts, p, 6);
        let ghost mut acc = first.2;
        assert(diags(self.errs()) == d0 + acc);
        while self.peek_kind() == TokenKind::And
            invariant
                Self::moved(*old(self), *self),
                ts == old(self).token_seq(),
                p == old(self).pos(),
                d0 == diags(old(self).errs()),
                diags(self.errs()) == d0 + acc,
                p_binary(ts, p, 7) == p_rest(ts, self.pos(), 7, *expr, acc),
            decreases self.token_seq().len() - self.pos(),
        {
            let ghost pb = self.pos();
            let ghost acc_b = acc;
            let ghost left_b = *expr;
            let operator = self.peek().duplicate();
            self.advance();
            let ghost d1 = diags(self.errs());
            let right = self.equality_rule();
            let ghost rr = p_binary(ts, pb + 1, 6);
            assert(*right == rr.0 && self.pos() == rr.1 && diags(self.errs()) == d1 + rr.2);
            proof {
                assert(diags(self.errs()) =~= d0 + (acc_b + rr.2));
                acc = acc_b + rr.2;
            }
            expr = Box::new(Expr::LogicalExpression { left: expr, operator, right });
            assert(*expr == level_node(7, left_b, ts[pb], rr.0));
            assert(p_rest(ts, pb, 7, left_b, acc_b) == p_rest(ts, self.pos(), 7, *expr, acc));
        }
        expr
    }

    /// `comparison ( ("!=" | "==") comparison )*`, left-associative.
    fn equality_rule(&mut self) -> (r: Box<Expr>)
        requires
            old(self).wf(),
        ensures
            Self::moved(*old(self), *final(self)),
            Self::parsed_as(*old(self), *final(self), *r, p_binary(old(self).token_seq(), old(self).pos(), 6)),
        decreases old(self).token_seq().len() - old(self).pos(), 6nat,
    {
        let ghost ts = self.token_seq();
        let ghost p = self.pos();
        let ghost d0 = diags(self.errs());
        let mut expr = self.comparison_rule();
        let ghost first = p_binary(ts, p, 5);
        let ghost mut acc = first.2;
        assert(diags(self.errs()) == d0 + acc);
        while self.peek_kind() == TokenKind::BangEqual || self.peek_kind() == TokenKind::EqualEqual
            invariant
                Self::moved(*old(self), *self),
                ts == old(self).token_seq(),
                p == old(self).pos(),
                d0 == diags(old(self).errs()),
                diags(self.errs()) == d0 + acc,
                p_binary(ts, p, 6) == p_rest(ts, self.pos(), 6, *expr, acc),
            decreases self.token_seq().len() - self.pos(),
        {
            let ghost pb = self.pos();
            let ghost acc_b = acc;
            let ghost left_b = *expr;
            let operator = self.peek().duplicate();
            self.advance();
            let ghost d1 = diags(self.errs());
            let right = self.comparison_rule();
            let ghost rr = p_binary(ts, pb + 1, 5);
            assert(*right == rr.0 && self.pos() == rr.1 && diags(self.errs()) == d1 + rr.2);
            proof {
                assert(diags(self.errs()) =~= d0 + (acc_b + rr.2));
                acc = acc_b + rr.2;
            }
            expr = Box::new(Expr::BinaryExpression { left: expr, operator, right });
            assert(*expr == level_node(6, left_b, ts[pb], rr.0));
            assert(p_rest(ts, pb, 6, left_b, acc_b) == p_rest(ts, self.pos(), 6, *expr, acc));
        }
        expr
    }

    /// `term ( (">" | ">=" | "<" | "<=") term )*`, left-associative.
    fn comparison_rule(&mut self) -> (r: Box<Expr>)
        requires
            old(self).wf(),
        ensures
            Self::moved(*old(self), *final(self)),
            Self::parsed_as(*old(self), *final(self), *r, p_binary(old(self).token_seq(), old(self).pos(), 5)),
        decreases old(self).token_seq().len() - old(self).pos(), 5nat,
    {
        let ghost ts = self.token_seq();
        let ghost p = self.pos();
        let ghost d0 = diags(self.errs());
        let mut expr = self.term_rule();
        let ghost first = p_binary(ts, p, 4);
        let ghost mut acc = first.2;
        assert(diags(self.errs()) == d0 + acc);
        while self.peek_kind() == TokenKind::Greater || self.peek_kind() == TokenKind::GreaterEqual
            || self.peek_kind() == TokenKind::Less || self.peek_kind() == TokenKind::LessEqual
            invariant
                Self::moved(*old(self), *self),
                ts == old(self).token_seq(),
                p == old(self).pos(),
                d0 == diags(old(self).errs()),
                diags(self.errs()) == d0 + acc,
                p_binary(ts, p, 5) == p_rest(ts, self.pos(), 5, *expr, acc),
            decreases self.token_seq().len() - self.pos(),
        {
            let ghost pb = self.pos();
            let ghost acc_b = acc;
            let ghost left_b = *expr;
            let operator = self.peek().duplicate();
            self.advance();
            let ghost d1 = diags(self.errs());
            let right = self.term_rule();
            let ghost rr = p_binary(ts, pb + 1, 4);
            assert(*right == rr.0 && self.pos() == rr.1 && diags(self.errs()) == d1 + rr.2);
            proof {
                assert(diags(self.errs()) =~= d0 + (acc_b + rr.2));
                acc = acc_b + rr.2;
            }
            expr = Box::new(Expr::BinaryExpression { left: expr, operator, right });
            assert(*expr == level_node(5, left_b, ts[pb], rr.0));
            assert(p_rest(ts, pb, 5, left_b, acc_b) == p_rest(ts, self.pos(), 5, *expr, acc));
        }
        expr
    }

    /// `factor ( ("-" | "+") factor )*`, left-associative.
    fn term_rule(&mut self) -> (r: Box<Expr>)
        requires
            old(self).wf(),
        ensures
            Self::moved(*old(self), *final(self)),
            Self::parsed_as(*old(self), *final(self), *r, p_binary(old(self).token_seq(), old(self).pos(), 4)),
        decreases old(self).token_seq().len() - old(self).pos(), 4nat,
    {
        let ghost ts = self.token_seq();
        let ghost p = self.pos();
        let ghost d0 = diags(self.errs());
        let mut expr = self.factor_rule();
        let ghost first = p_binary(ts, p, 3);
        let ghost mut acc = first.2;
        assert(diags(self.errs()) == d0 + acc);
        while self.peek_kind() == TokenKind::Minus || self.peek_kind() == TokenKind::Plus
            invariant
                Self::moved(*old(self), *self),
                ts == old(self).token_seq(),
                p == old(self).pos(),
                d0 == diags(old(self).errs()),
                diags(self.errs()) == d0 + acc,
                p_binary(ts, p, 4) == p_rest(ts, self.pos(), 4, *expr, acc),
            decreases self.token_seq().len() - self.pos(),
        {
            let ghost pb = self.pos();
            let ghost acc_b = acc;
            let ghost left_b = *expr;
            let operator = self.peek().duplicate();
            self.advance();
            let ghost d1 = diags(self.errs());
            let right = self.factor_rule();
            let ghost rr = p_binary(ts, pb + 1, 3);
            assert(*right == rr.0 && self.pos() == rr.1 && diags(self.errs()) == d1 + rr.2);
            proof {
                assert(diags(self.errs()) =~= d0 + (acc_b + rr.2));
                acc = acc_b + rr.2;
            }
            expr = Box::new(Expr::BinaryExpression { left: expr, operator, right });
            assert(*expr == level_node(4, left_b, ts[pb], rr.0));
            assert(p_rest(ts, pb, 4, left_b, acc_b) == p_rest(ts, self.pos(), 4, *expr, acc));
        }
        expr
    }

    /// `unary ( ("/" | "*") unary )*`, left-associative.
    fn factor_rule(&mut self) -> (r: Box<Expr>)
        requires
            old(self).wf(),
        ensures
            Self::moved(*old(self), *final(self)),
            Self::parsed_as(*old(self), *final(self), *r, p_binary(old(self).token_seq(), old(self).pos(), 3)),
        decreases old(self).token_seq().len() - old(self).pos(), 3nat,
    {
        let ghost ts = self.token_seq();
        let ghost p = self.pos();
        let ghost d0 = diags(self.errs());
        let mut expr = self.unary_rule();
        let ghost first = p_unary(ts, p);
        let ghost mut acc = first.2;
        assert(diags(self.errs()) == d0 + acc);
        while self.peek_kind() == TokenKind::Slash || self.peek_kind() == TokenKind::Star
            invariant
                Self::moved(*old(self), *self),
                ts == old(self).token_seq(),
                p == old(self).pos(),
                d0 == diags(old(self).errs()),
                diags(self.errs()) == d0 + acc,
                p_binary(ts, p, 3) == p_rest(ts, self.pos(), 3, *expr, acc),
            decreases self.token_seq().len() - self.pos(),
        {
            let ghost pb = self.pos();
            let ghost acc_b = acc;
            let ghost left_b = *expr;
            let operator = self.peek().duplicate();
            self.advance();
            let ghost d1 = diags(self.errs());
            let right = self.unary_rule();
            let ghost rr = p_unary(ts, pb + 1);
            assert(*right == rr.0 && self.pos() == rr.1 && diags(self.errs()) == d1 + rr.2);
            proof {
                assert(diags(self.errs()) =~= d0 + (acc_b + rr.2));
                acc = acc_b + rr.2;
            }
            expr = Box::new(Expr::BinaryExpression { left: expr, operator, right });
            assert(*expr == level_node(3, left_b, ts[pb], rr.0));
            assert(p_rest(ts, pb, 3, left_b, acc_b) == p_rest(ts, self.pos(), 3, *expr, acc));
        }
        expr
    }

    /// `("!" | "-") unary | primary`: prefix operators nest to any depth.
    fn unary_rule(&mut self) -> (r: Box<Expr>)
        requires
            old(self).wf(),
        ensures
            Self::moved(*old(self), *final(self)),
            Self::parsed_as(*old(self), *final(self), *r, p_unary(old(self).token_seq(), old(self).pos())),
        decreases old(self).token_seq().len() - old(self).pos(), 2nat,
    {
        let k = self.peek_kind();
        if k == TokenKind::Bang || k == TokenKind::Minus {
            let operator = self.peek().duplicate();
            self.advance();
            let right = self.unary_rule();
            return Box::new(Expr::UnaryExpression { operator, right });
        }
        self.primary_rule()
    }

    /// Literals, names and parenthesised expressions. Any other token is reported and skipped.
    fn primary_rule(&mut self) -> (r: Box<Expr>)
        requires
            old(self).wf(),
        ensures
            Self::moved(*old(self), *final(self)),
            Self::parsed_as(*old(self), *final(self), *r, p_primary(old(self).token_seq(), old(self).pos())),
        decreases old(self).token_seq().len() - old(self).pos(), 1nat,
    {
        let ghost d0 = diags(self.errs());
        let k = self.peek_kind();
        if k == TokenKind::True {
            self.advance();
            assert(d0 + seq![] =~= d0);
            Box::new(Expr::LiteralExpression { value: Some(Value::Boolean(true)) })
        } else if k == TokenKind::False {
            self.advance();
            assert(d0 + seq![] =~= d0);
            Box::new(Expr::LiteralExpression { value: Some(Value::Boolean(false)) })
        } else if k == TokenKind::Nil {
            self.advance();
            assert(d0 + seq![] =~= d0);
            Box::new(Expr::LiteralExpression { value: Some(Value::Nil) })
        } else if k == TokenKind::String || k == TokenKind::Number {
            let value = match &self.peek().literal {
                Some(v) => Some(v.duplicate()),
                None => None,
            };
            self.advance();
            assert(d0 + seq![] =~= d0);
            Box::new(Expr::LiteralExpression { value })
        } else if k == TokenKind::Identifier {
            let name = self.peek().duplicate();
            self.advance();
            assert(d0 + seq![] =~= d0);
            Box::new(Expr::VariableResolutionExpression { name })
        } else if k == TokenKind::LeftParen {
            self.advance();
            let expression = self.expression_rule();
            if self.peek_kind() == TokenKind::RightParen {
                self.advance();
                assert(diags(self.errs()) == d0 + p_expression(self.token_seq(), old(self).pos() + 1).2);
            } else {
                let ghost pe = p_expression(self.token_seq(), old(self).pos() + 1);
                assert(diags(self.errs()) == d0 + pe.2);
                let line = self.peek().line;
                let column = self.peek().column;
                self.report(ErrorKind::UnexpectedToken, "Expected \")\" after expression.", line, column);
                assert(diags(self.errs()) =~= d0 + (pe.2 + seq![(ErrorKind::UnexpectedToken, Some(line), column)]));
            }
            Box::new(Expr::GroupingExpression { expression })
        } else {
            let line = self.peek().line;
            let column = self.peek().column;
            self.report(ErrorKind::UnexpectedToken, "Expected expression.", line, column);
            self.advance();
            assert(diags(self.errs()) =~= d0 + seq![(ErrorKind::UnexpectedToken, Some(line), column)]);
            Box::new(Expr::LiteralExpression { value: None })
        }
    }
}

impl<'a> Parser<'a> {
    /// The statement was read as `res.0` up to `res.1`, and its diagnostics `res.2` were reported.
    pub open spec fn stmt_parsed_as(old: Parser<'a>, new: Parser<'a>, s: Stmt, res: ParsedStmt) -> bool {
        &&& stmt_view(s) == res.0
        &&& new.pos() == res.1
        &&& diags(new.errs()) == diags(old.errs()) + res.2
    }

    /// Reports the token before the cursor as unexpected, skips to where recovery resumes, and
    /// leaves a statement that could not be read.
    fn recover(&mut self, msg: &str) -> (r: Stmt)
        requires
            old(self).wf(),
        ensures
            final(self).wf(),
            final(self).token_seq() == old(self).token_seq(),
            final(self).pos() >= old(self).pos(),
            Self::stmt_parsed_as(*old(self), *final(self), r, p_invalid(old(self).token_seq(), old(self).pos(), seq![])),
            r is Invalid,
    {
        let line = self.previous().line;
        let column = self.previous().column;
        self.report(ErrorKind::UnexpectedToken, msg, line, column);
        self.synchronise();
        assert(diags(self.errs()) =~= diags(old(self).errs()) + (seq![] + seq![(ErrorKind::UnexpectedToken, Some(line), column)]));
        Stmt::Invalid { line }
    }

    /// `"var" IDENT ( "=" expression )? ";"`.
    fn var_declaration_rule(&mut self) -> (r: Stmt)
        requires
            old(self).wf(),
            old(self).token_seq()[old(self).pos()].kind == TokenKind::Var,
        ensures
            Self::moved(*old(self), *final(self)),
            well_shaped(r),
            Self::stmt_parsed_as(*old(self), *final(self), r, p_var_declaration(old(self).token_seq(), old(self).pos())),
    {
        let ghost ts = self.token_seq();
        let ghost d0 = diags(self.errs());
        self.advance();
        if self.peek_kind() != TokenKind::Identifier {
            return self.recover("Expected identifier after \"var\".");
        }
        let name = self.peek().duplicate();
        self.advance();
        let initializer;
        if self.peek_kind() == TokenKind::Equal {
            self.advance();
            initializer = *self.expression_rule();
            let ghost pe = p_expression(ts, old(self).pos() + 3);
            assert(diags(self.errs()) == d0 + pe.2);
            let ghost ps = p_semicolon(ts, self.pos());
            self.consume_semicolon();
            assert(diags(self.errs()) =~= d0 + (pe.2 + ps.1));
        } else if self.peek_kind() == TokenKind::Semicolon {
            initializer = Expr::LiteralExpression { value: None };
            self.consume_semicolon();
        } else {
            return self.recover("Expected \"=\" or \";\" after variable declaration.");
        }
        Stmt::VarDeclStmt { name, initializer }
    }

    /// `"{" declaration* "}"`.
    fn block_statement_rule(&mut self) -> (r: Stmt)
        requires
            old(self).wf(),
            old(self).token_seq()[old(self).pos()].kind == TokenKind::LeftBrace,
        ensures
            Self::moved(*old(self), *final(self)),
            r is BlockStmt,
            Self::stmt_parsed_as(*old(self), *final(self), r, p_block(old(self).token_seq(), old(self).pos())),
        decreases old(self).token_seq().len() - old(self).pos(), 31nat,
    {
        let ghost ts = self.token_seq();
        let ghost d0 = diags(self.errs());
        self.advance();
        let ghost p1 = self.pos();
        let mut statements: Vec<Stmt> = Vec::new();
        let ghost mut acc: Seq<Diag> = seq![];
        proof {
            let all = p_items(ts, p1);
            assert(stmts_view(statements@) + all.0 =~= all.0);
            assert(acc + all.2 =~= all.2);
            assert(diags(self.errs()) =~= d0 + acc);
        }
        while self.peek_kind() != TokenKind::RightBrace && !self.is_at_end()
            invariant
                Self::moved(*old(self), *self),
                self.pos() > old(self).pos(),
                ts == old(self).token_seq(),
                p1 == old(self).pos() + 1,
                d0 == diags(old(self).errs()),
                diags(self.errs()) == d0 + acc,
                ({
                    let all = p_items(ts, p1);
                    let rest = p_items(ts, self.pos());
                    all.0 == stmts_view(statements@) + rest.0 && all.1 == rest.1 && all.2 == acc + rest.2
                }),
            decreases self.token_seq().len() - self.pos(),
        {
            let ghost pb = self.pos();
            let ghost sb = statements@;
            let ghost acc_b = acc;
            let st = self.declaration_rule();
            proof {
                let (m, p2, d2) = p_declaration(ts, pb);
                let rest = p_items(ts, p2);
                lemma_stmts_view_push(sb, st);
                assert(stmts_view(sb.push(st)) + rest.0 =~= stmts_view(sb) + (seq![m] + rest.0));
                assert(acc_b + d2 + rest.2 =~= acc_b + (d2 + rest.2));
                acc = acc_b + d2;
            }
            statements.push(st);
        }
        let ghost items = p_items(ts, p1);
        assert(stmts_view(statements@) + seq![] =~= stmts_view(statements@));
        assert(acc + seq![] =~= acc);
        if self.peek_kind() != TokenKind::RightBrace {
            let line = self.previous().line;
            let column = self.previous().column;
            self.report(ErrorKind::MissingBrace, "Expected \"}\" after block.", line, column);
            assert(diags(self.errs()) =~= d0 + (items.2 + seq![(ErrorKind::MissingBrace, Some(line), column)]));
        } else {
            self.advance();
        }
        Stmt::BlockStmt { statements }
    }

    /// Whether the parser stands on `else if`, as one token or as two.
    fn at_else_if(&self) -> (r: bool)
        requires
            self.wf(),
        ensures
            r ==> !self.at_end(),
            r == at_else_if(self.token_seq(), self.pos()),
    {
        let k = self.peek_kind();
        k == TokenKind::ElseIf || (k == TokenKind::Else && self.peek_next_kind() == TokenKind::If)
    }

    /// One `else if` arm: its branch, or, when its block is missing, the statement that could
    /// not be read.
    fn else_if_arm(&mut self) -> (r: Result<ElseIfBranch, Stmt>)
        requires
            old(self).wf(),
            at_else_if(old(self).token_seq(), old(self).pos()),
        ensures
            Self::moved(*old(self), *final(self)),
            ({
                let (arm, p3, d, failed) = p_arm(old(self).token_seq(), old(self).pos());
                &&& final(self).pos() == p3
                &&& diags(final(self).errs()) == diags(old(self).errs()) + d
                &&& match r {
                    Ok(b) => failed is None && arm == Some((*b.condition, stmt_view(*b.then_branch)))
                        && *b.then_branch is BlockStmt,
                    Err(st) => failed matches Some(l) && stmt_view(st) == StmtModel::Invalid(l)
                        && st is Invalid,
                }
            }),
        decreases old(self).token_seq().len() - old(self).pos(), 36nat,
    {
        let ghost ts = self.token_seq();
        let ghost d0 = diags(self.errs());
        if self.peek_kind() == TokenKind::Else {
            self.advance();
        }
        self.advance();
        let ghost p1 = self.pos();
        let condition = self.expression_rule();
        let ghost pe = p_expression(ts, p1);
        if self.peek_kind() != TokenKind::LeftBrace {
            let r = self.recover("Expected \"{\" after condition.");
            assert(diags(self.errs()) =~= d0 + (pe.2 + seq![diag_at(ErrorKind::UnexpectedToken, prev(ts, pe.1))]));
            return Err(r);
        }
        let ghost p2 = self.pos();
        let then_branch = Box::new(self.block_statement_rule());
        assert(diags(self.errs()) =~= d0 + (pe.2 + p_block(ts, p2).2));
        Ok(ElseIfBranch { condition, then_branch })
    }

    /// The `else if` arms from the cursor on, or, when one has no block, the statement that
    /// could not be read.
    fn else_if_arms(&mut self) -> (r: Result<Vec<ElseIfBranch>, Stmt>)
        requires
            old(self).wf(),
        ensures
            final(self).wf(),
            final(self).token_seq() == old(self).token_seq(),
            final(self).pos() >= old(self).pos(),
            ({
                let (arms, p4, d4, failed) = p_arms(old(self).token_seq(), old(self).pos());
                &&& final(self).pos() == p4
                &&& diags(final(self).errs()) == diags(old(self).errs()) + d4
                &&& match r {
                    Ok(v) => failed is None && branches_view(v@) == arms && forall|i: int|
                        0 <= i < v@.len() ==> *(#[trigger] v@[i]).then_branch is BlockStmt,
                    Err(st) => failed matches Some(l) && stmt_view(st) == StmtModel::Invalid(l)
                        && st is Invalid,
                }
            }),
        decreases old(self).token_seq().len() - old(self).pos(), 37nat,
    {
        let ghost ts = self.token_seq();
        let ghost p0 = self.pos();
        let ghost d0 = diags(self.errs());
        let mut else_if_branches: Vec<ElseIfBranch> = Vec::new();
        let ghost mut acc: Seq<Diag> = seq![];
        proof {
            let all = p_arms(ts, p0);
            assert(branches_view(else_if_branches@) + all.0 =~= all.0);
            assert(acc + all.2 =~= all.2);
            assert(diags(self.errs()) =~= d0 + acc);
        }
        while self.at_else_if()
            invariant
                self.wf(),
                self.token_seq() == old(self).token_seq(),
                self.pos() >= old(self).pos(),
                ts == old(self).token_seq(),
                p0 == old(self).pos(),
                d0 == diags(old(self).errs()),
                diags(self.errs()) == d0 + acc,
                ({
                    let all = p_arms(ts, p0);
                    let rest = p_arms(ts, self.pos());
                    all.0 == branches_view(else_if_branches@) + rest.0 && all.1 == rest.1 && all.2
                        == acc + rest.2 && all.3 == rest.3
                }),
                forall|i: int|
                    0 <= i < else_if_branches@.len() ==> *(#[trigger] else_if_branches@[i]).then_branch is BlockStmt,
            decreases self.token_seq().len() - self.pos(),
        {
            let ghost pb = self.pos();
            let ghost bb = else_if_branches@;
            let ghost acc_b = acc;
            let ghost step = p_arm(ts, pb);
            match self.else_if_arm() {
                Err(r) => {
                    proof {
                        let all = p_arms(ts, p0);
                        assert(diags(self.errs()) =~= d0 + all.2);
                    }
                    return Err(r);
                },
                Ok(b) => {
                    proof {
                        let rest = p_arms(ts, self.pos());
                        lemma_branches_view_push(bb, b);
                        assert(branches_view(bb.push(b)) + rest.0 =~= branches_view(bb) + (seq![step.0->0] + rest.0));
                        assert(acc_b + step.2 + rest.2 =~= acc_b + (step.2 + rest.2));
                        assert(diags(self.errs()) =~= d0 + (acc_b + step.2));
                        acc = acc_b + step.2;
                    }
                    else_if_branches.push(b);
                },
            }
        }
        proof {
            assert(branches_view(else_if_branches@) + seq![] =~= branches_view(else_if_branches@));
            assert(acc + seq![] =~= acc);
        }
        Ok(else_if_branches)
    }

    /// `"if" expression block ( "else" "if" expression block )* ( "else" block )?`.
    fn if_statement_rule(&mut self) -> (r: Stmt)
        requires
            old(self).wf(),
            old(self).token_seq()[old(self).pos()].kind == TokenKind::If,
        ensures
            Self::moved(*old(self), *final(self)),
            r is IfStmt || r is Invalid,
            well_shaped(r),
            Self::stmt_parsed_as(*old(self), *final(self), r, p_if(old(self).token_seq(), old(self).pos())),
        decreases old(self).token_seq().len() - old(self).pos(), 32nat,
    {
        let ghost ts = self.token_seq();
        let ghost p = self.pos();
        let ghost d0 = diags(self.errs());
        self.advance();
        let condition = self.expression_rule();
        let ghost pc = p_expression(ts, p + 1);
        let ghost d2 = pc.2;
        if self.peek_kind() != TokenKind::LeftBrace {
            let ghost d_before = diags(self.errs());
            let r = self.recover("Expected \"{\" after condition.");
            assert(diags(self.errs()) =~= d0 + (d2 + seq![diag_at(ErrorKind::UnexpectedToken, prev(ts, pc.1))]));
            return r;
        }
        let then_branch = Box::new(self.block_statement_rule());
        let ghost pt = p_block(ts, pc.1);
        let ghost d3 = pt.2;
        let ghost p3 = self.pos();
        assert(diags(self.errs()) =~= d0 + (d2 + d3));
        let else_if_branches = match self.else_if_arms() {
            Ok(v) => v,
            Err(r) => {
                let ghost arms = p_arms(ts, p3);
                assert(diags(self.errs()) =~= d0 + (d2 + d3 + arms.2));
                return r;
            },
        };
        let ghost arms = p_arms(ts, p3);
        assert(diags(self.errs()) =~= d0 + (d2 + d3 + arms.2));
        let mut else_branch: Option<Box<Stmt>> = None;
        if self.peek_kind() == TokenKind::Else {
            self.advance();
            if self.peek_kind() != TokenKind::LeftBrace {
                let r = self.recover("Expected \"{\" after \"else\".");
                assert(diags(self.errs()) =~= d0 + (d2 + d3 + arms.2 + seq![diag_at(ErrorKind::UnexpectedToken, prev(ts, arms.1 + 1))]));
                return r;
            }
            let ghost p5 = self.pos();
            else_branch = Some(Box::new(self.block_statement_rule()));
            assert(diags(self.errs()) =~= d0 + (d2 + d3 + arms.2 + p_block(ts, p5).2));
        }
        Stmt::IfStmt { condition, then_branch, else_if_branches, else_branch }
    }

    /// One statement: `if`, `print`, a block, an assignment, or an expression.
    fn statement_rule(&mut self) -> (r: Stmt)
        requires
            old(self).wf(),
        ensures
            Self::moved(*old(self), *final(self)),
            well_shaped(r),
            Self::stmt_parsed_as(*old(self), *final(self), r, p_statement(old(self).token_seq(), old(self).pos())),
        decreases old(self).token_seq().len() - old(self).pos(), 33nat,
    {
        let ghost ts = self.token_seq();
        let ghost p = self.pos();
        let ghost d0 = diags(self.errs());
        let k = self.peek_kind();
        if k == TokenKind::If {
            self.if_statement_rule()
        } else if k == TokenKind::Print {
            self.advance();
            let expression = self.expression_rule();
            let ghost pe = p_expression(ts, p + 1);
            let ghost ps = p_semicolon(ts, self.pos());
            self.consume_semicolon();
            assert(diags(self.errs()) =~= d0 + (pe.2 + ps.1));
            Stmt::PrintStmt { expression }
        } else if k == TokenKind::LeftBrace {
            self.block_statement_rule()
        } else if k == TokenKind::Identifier && self.peek_next_kind() == TokenKind::Equal {
            let expression = self.assignment_rule();
            let ghost pe = p_assignment(ts, p);
            let ghost ps = p_semicolon(ts, self.pos());
            self.consume_semicolon();
            assert(diags(self.errs()) =~= d0 + (pe.2 + ps.1));
            let is_assignment = match &*expression {
                Expr::AssignmentExpression { .. } => true,
                _ => false,
            };
            if is_assignment {
                Stmt::AssignmentStmt { expression }
            } else {
                Stmt::ExpressionStmt { expression }
            }
        } else {
            let expression = self.expression_rule();
            let ghost pe = p_expression(ts, p);
            let ghost ps = p_semicolon(ts, self.pos());
            self.consume_semicolon();
            assert(diags(self.errs()) =~= d0 + (pe.2 + ps.1));
            Stmt::ExpressionStmt { expression }
        }
    }

    /// A `var` declaration or a statement.
    fn declaration_rule(&mut self) -> (r: Stmt)
        requires
            old(self).wf(),
        ensures
            Self::moved(*old(self), *final(self)),
            well_shaped(r),
            Self::stmt_parsed_as(*old(self), *final(self), r, p_declaration(old(self).token_seq(), old(self).pos())),
        decreases old(self).token_seq().len() - old(self).pos(), 34nat,
    {
        if self.peek_kind() == TokenKind::Var {
            self.var_declaration_rule()
        } else {
            self.statement_rule()
        }
    }

    /// Parses declarations up to the `Eof`, recovering after each error: the statements and
    /// diagnostics are exactly those of `p_program`.
    pub fn parse(&mut self) -> (r: Vec<Stmt>)
        requires
            old(self).wf(),
        ensures
            final(self).wf(),
            final(self).token_seq() == old(self).token_seq(),
            final(self).at_end(),
            forall|i: int| 0 <= i < r@.len() ==> well_shaped(#[trigger] r@[i]),
            stmts_view(r@) == p_program(old(self).token_seq(), old(self).pos()).0,
            diags(final(self).errs()) == diags(old(self).errs()) + p_program(old(self).token_seq(), old(self).pos()).1,
    {
        let ghost ts = self.token_seq();
        let ghost d0 = diags(self.errs());
        let mut statements: Vec<Stmt> = Vec::new();
        proof {
            let all = p_program(ts, self.pos());
            assert(stmts_view(statements@) + all.0 =~= all.0);
            assert(d0 + all.1 =~= diags(self.errs()) + all.1);
        }
        while !self.is_at_end()
            invariant
                self.wf(),
                self.token_seq() == old(self).token_seq(),
                ts == old(self).token_seq(),
                d0 == diags(old(self).errs()),
                forall|i: int| 0 <= i < statements@.len() ==> well_shaped(#[trigger] statements@[i]),
                ({
                    let all = p_program(ts, old(self).pos());
                    let rest = p_program(ts, self.pos());
                    all.0 == stmts_view(statements@) + rest.0 && d0 + all.1 == diags(self.errs()) + rest.1
                }),
            decreases self.token_seq().len() - self.pos(),
        {
            let ghost pb = self.pos();
            let ghost db = diags(self.errs());
            let ghost sb = statements@;
            let st = self.declaration_rule();
            proof {
                let (m, p2, d2) = p_declaration(ts, pb);
                let rest = p_program(ts, p2);
                lemma_stmts_view_push(sb, st);
                assert(stmts_view(sb.push(st)) + rest.0 =~= stmts_view(sb) + (seq![m] + rest.0));
                assert(diags(self.errs()) + rest.1 =~= db + (d2 + rest.1));
            }
            statements.push(st);
        }
        proof {
            assert(stmts_view(statements@) + seq![] =~= stmts_view(statements@));
            assert(diags(self.errs()) + seq![] =~= diags(self.errs()));
        }
        statements
    }

    /// The diagnostics reported so far.
    pub fn errors(&self) -> (r: &Vec<Error>)
        requires
            self.wf(),
        ensures
            r@ == self.errs(),
            forall|i: int| 0 <= i < r@.len() ==> parse_error_ok(#[trigger] r@[i]),
    {
        &self.errors
    }
}

/// Parses a token sequence that ends in `Eof` into statements, with the diagnostics of every
/// statement that could not be read: exactly the statements and diagnostics of `p_program`.
pub fn parse(tokens: &Vec<Token>) -> (r: (Vec<Stmt>, Vec<Error>))
    requires
        ends_in_eof(tokens@),
    ensures
        forall|i: int| 0 <= i < r.0@.len() ==> well_shaped(#[trigger] r.0@[i]),
        forall|i: int| 0 <= i < r.1@.len() ==> parse_error_ok(#[trigger] r.1@[i]),
        stmts_view(r.0@) == p_program(tokens@, 0).0,
        diags(r.1@) == p_program(tokens@, 0).1,
{
    let mut p = Parser::new(tokens);
    let statements = p.parse();
    let Parser { errors, .. } = p;
    assert(diags(Seq::<Error>::empty()) + p_program(tokens@, 0).1 =~= p_program(tokens@, 0).1);
    (statements, errors)
}

} // verus!
