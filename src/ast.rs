use vstd::prelude::*;
use crate::token::Token;
use crate::value::Value;

verus! {

/// An expression of the language. `Call`, `Get`, `Set`, `Super` and `Self` are reserved
/// shapes: the parser does not build them and the evaluator rejects them.
#[derive(Debug, PartialEq)]
pub enum Expr {
    BinaryExpression { left: Box<Expr>, operator: Token, right: Box<Expr> },
    CallExpression { callee: Box<Expr>, paren: Token, arguments: Vec<Expr> },
    GetExpression { object: Box<Expr>, name: Token },
    GroupingExpression { expression: Box<Expr> },
    /// `None` stands for the missing initializer of a `var`; it evaluates to `nil`.
    LiteralExpression { value: Option<Value> },
    LogicalExpression { left: Box<Expr>, operator: Token, right: Box<Expr> },
    SetExpression { object: Box<Expr>, name: Token, value: Box<Expr> },
    SuperExpression { keyword: Token, method: Token },
    SelfExpression { keyword: Token },
    UnaryExpression { operator: Token, right: Box<Expr> },
    VariableResolutionExpression { name: Token },
    AssignmentExpression { name: Token, value: Box<Expr> },
}

/// One `else if` arm of an `if` statement.
#[derive(Debug, PartialEq)]
pub struct ElseIfBranch {
    pub condition: Box<Expr>,
    pub then_branch: Box<Stmt>,
}

/// A statement of the language. `While`, `Function`, `Return` and `Class` are reserved shapes
/// that the evaluator rejects; `Invalid` is what the parser leaves, with its line, for a
/// statement that it could not read.
#[derive(Debug, PartialEq)]
pub enum Stmt {
    ExpressionStmt { expression: Box<Expr> },
    PrintStmt { expression: Box<Expr> },
    VarDeclStmt { name: Token, initializer: Expr },
    /// Its expression is always an `AssignmentExpression`.
    AssignmentStmt { expression: Box<Expr> },
    BlockStmt { statements: Vec<Stmt> },
    IfStmt {
        condition: Box<Expr>,
        then_branch: Box<Stmt>,
        else_if_branches: Vec<ElseIfBranch>,
        else_branch: Option<Box<Stmt>>,
    },
    WhileStmt { condition: Box<Expr>, body: Box<Stmt> },
    FunctionStmt { name: Token, params: Vec<Token>, body: Vec<Stmt> },
    ReturnStmt { keyword: Token, value: Option<Box<Expr>> },
    ClassStmt { name: Token, methods: Vec<Stmt>, superclass: Option<Box<Expr>> },
    Invalid { line: usize },
}

/// The content of a statement, with sequences for its lists.
pub enum StmtModel {
    Expression(Expr),
    Print(Expr),
    VarDecl(Token, Expr),
    Assignment(Expr),
    Block(Seq<StmtModel>),
    If(Expr, Box<StmtModel>, Seq<(Expr, StmtModel)>, Option<Box<StmtModel>>),
    Invalid(usize),
    /// `while`, `fun`, `return` and `class`, which the parser does not build.
    Reserved,
}

pub open spec fn stmt_view(s: Stmt) -> StmtModel
    decreases s,
{
    match s {
        Stmt::ExpressionStmt { expression } => StmtModel::Expression(*expression),
        Stmt::PrintStmt { expression } => StmtModel::Print(*expression),
        Stmt::VarDeclStmt { name, initializer } => StmtModel::VarDecl(name, initializer),
        Stmt::AssignmentStmt { expression } => StmtModel::Assignment(*expression),
        Stmt::BlockStmt { statements } => StmtModel::Block(stmts_view(statements@)),
        Stmt::IfStmt { condition, then_branch, else_if_branches, else_branch } => StmtModel::If(
            *condition,
            Box::new(stmt_view(*then_branch)),
            branches_view(else_if_branches@),
            match else_branch {
                Some(b) => Some(Box::new(stmt_view(*b))),
                None => None,
            },
        ),
        Stmt::Invalid { line } => StmtModel::Invalid(line),
        _ => StmtModel::Reserved,
    }
}

pub open spec fn stmts_view(ss: Seq<Stmt>) -> Seq<StmtModel>
    decreases ss,
{
    if ss.len() == 0 {
        seq![]
    } else {
        seq![stmt_view(ss[0])] + stmts_view(ss.drop_first())
    }
}

pub open spec fn branches_view(bs: Seq<ElseIfBranch>) -> Seq<(Expr, StmtModel)>
    decreases bs,
{
    if bs.len() == 0 {
        seq![]
    } else {
        seq![(*bs[0].condition, stmt_view(*bs[0].then_branch))] + branches_view(bs.drop_first())
    }
}

pub proof fn lemma_stmts_view_push(ss: Seq<Stmt>, s: Stmt)
    ensures
        stmts_view(ss.push(s)) == stmts_view(ss).push(stmt_view(s)),
    decreases ss.len(),
{
    if ss.len() == 0 {
        assert(ss.push(s).drop_first() =~= Seq::<Stmt>::empty());
        assert(stmts_view(ss.push(s).drop_first()) == Seq::<StmtModel>::empty());
        assert(ss.push(s)[0] == s);
        assert(stmts_view(ss.push(s)) =~= seq![stmt_view(s)]);
        assert(stmts_view(ss) =~= Seq::<StmtModel>::empty());
    } else {
        assert(ss.push(s).drop_first() =~= ss.drop_first().push(s));
        lemma_stmts_view_push(ss.drop_first(), s);
        assert(stmts_view(ss.push(s)) =~= stmts_view(ss).push(stmt_view(s)));
    }
}

pub proof fn lemma_branches_view_push(bs: Seq<ElseIfBranch>, b: ElseIfBranch)
    ensures
        branches_view(bs.push(b)) == branches_view(bs).push((*b.condition, stmt_view(*b.then_branch))),
    decreases bs.len(),
{
    if bs.len() == 0 {
        assert(bs.push(b).drop_first() =~= Seq::<ElseIfBranch>::empty());
        assert(branches_view(bs.push(b).drop_first()) == Seq::<(Expr, StmtModel)>::empty());
        assert(bs.push(b)[0] == b);
        assert(branches_view(bs.push(b)) =~= seq![(*b.condition, stmt_view(*b.then_branch))]);
        assert(branches_view(bs) =~= Seq::<(Expr, StmtModel)>::empty());
    } else {
        assert(bs.push(b).drop_first() =~= bs.drop_first().push(b));
        lemma_branches_view_push(bs.drop_first(), b);
        assert(branches_view(bs.push(b)) =~= branches_view(bs).push((*b.condition, stmt_view(*b.then_branch))));
    }
}

} // verus!
