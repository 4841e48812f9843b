use lox::{parse, tokenize, Arithmetic, ErrorKind, Expr, Number, Parser, Stmt, Token, TokenKind, Value};

struct Host;

fn float(n: Number) -> f64 {
    f64::from_bits(n.to_bits())
}

fn number(x: f64) -> Number {
    Number::from_bits(x.to_bits())
}

impl Arithmetic for Host {
    fn parse_number(&self, text: &str) -> Option<Number> {
        text.parse::<f64>().ok().map(number)
    }

    fn add(&self, a: Number, b: Number) -> Number {
        number(float(a) + float(b))
    }

    fn sub(&self, a: Number, b: Number) -> Number {
        number(float(a) - float(b))
    }

    fn mul(&self, a: Number, b: Number) -> Number {
        number(float(a) * float(b))
    }

    fn div(&self, a: Number, b: Number) -> Number {
        number(float(a) / float(b))
    }

    fn format(&self, n: Number) -> String {
        float(n).to_string()
    }
}

fn tok(kind: TokenKind, lexeme: &str, column: usize, literal: Option<Value>) -> Token {
    Token { kind, lexeme: lexeme.into(), line: 1, column, literal }
}

fn parse_source(source: &str) -> (Vec<Stmt>, Vec<lox::Error>) {
    let (tokens, errors) = tokenize(source, &Host);
    assert!(errors.is_empty());
    parse(&tokens)
}

#[test]
fn test_parser() {
    let tokens = vec![
        tok(TokenKind::LeftParen, "(", 0, None),
        tok(TokenKind::Number, "123", 1, Some(Value::Number(number(123.0)))),
        tok(TokenKind::Star, "*", 2, None),
        tok(TokenKind::Number, "45.67", 3, Some(Value::Number(number(45.67)))),
        tok(TokenKind::RightParen, ")", 0, None),
        tok(TokenKind::Semicolon, ";", 0, None),
        tok(TokenKind::Eof, "", 4, None),
    ];
    let mut parser = Parser::new(&tokens);
    let statements = parser.parse();
    assert_eq!(
        statements[0],
        Stmt::ExpressionStmt {
            expression: Box::new(Expr::GroupingExpression {
                expression: Box::new(Expr::BinaryExpression {
                    left: Box::new(Expr::LiteralExpression {
                        value: Some(Value::Number(number(123.0))),
                    }),
                    operator: tok(TokenKind::Star, "*", 2, None),
                    right: Box::new(Expr::LiteralExpression {
                        value: Some(Value::Number(number(45.67))),
                    }),
                }),
            })
        }
    );
    assert!(parser.errors().is_empty());
}

#[test]
fn factors_bind_tighter_than_terms_and_associate_left() {
    let (statements, errors) = parse_source("1 - 2 * 3 - 4;");
    assert!(errors.is_empty());
    let Stmt::ExpressionStmt { expression } = &statements[0] else { panic!("expression statement expected") };
    let Expr::BinaryExpression { left, operator, right } = &**expression else { panic!("binary expected") };
    assert_eq!(operator.kind, TokenKind::Minus);
    assert!(matches!(**right, Expr::LiteralExpression { .. }));
    let Expr::BinaryExpression { operator: inner, right: product, .. } = &**left else { panic!("binary expected") };
    assert_eq!(inner.kind, TokenKind::Minus);
    assert!(matches!(&**product, Expr::BinaryExpression { operator, .. } if operator.kind == TokenKind::Star));
}

#[test]
fn unary_operators_nest() {
    let (statements, errors) = parse_source("!!-x;");
    assert!(errors.is_empty());
    let Stmt::ExpressionStmt { expression } = &statements[0] else { panic!("expression statement expected") };
    let Expr::UnaryExpression { operator, right } = &**expression else { panic!("unary expected") };
    assert_eq!(operator.kind, TokenKind::Bang);
    let Expr::UnaryExpression { operator, right } = &**right else { panic!("unary expected") };
    assert_eq!(operator.kind, TokenKind::Bang);
    assert!(matches!(&**right, Expr::UnaryExpression { operator, .. } if operator.kind == TokenKind::Minus));
}

#[test]
fn assignment_statement_holds_an_assignment() {
    let (statements, errors) = parse_source("a = b = 5;");
    assert!(errors.is_empty());
    let Stmt::AssignmentStmt { expression } = &statements[0] else { panic!("assignment statement expected") };
    let Expr::AssignmentExpression { name, value } = &**expression else { panic!("assignment expected") };
    assert_eq!(name.lexeme, "a");
    assert!(matches!(&**value, Expr::AssignmentExpression { name, .. } if name.lexeme == "b"));
}

#[test]
fn var_without_initializer_holds_an_empty_literal() {
    let (statements, errors) = parse_source("var a;");
    assert!(errors.is_empty());
    assert!(matches!(&statements[0], Stmt::VarDeclStmt { name, initializer: Expr::LiteralExpression { value: None } } if name.lexeme == "a"));
}

#[test]
fn if_chain_is_flat() {
    let (statements, errors) = parse_source("if a { } else if b { } else if c { } else { print 1; }");
    assert!(errors.is_empty());
    assert_eq!(statements.len(), 1);
    let Stmt::IfStmt { else_if_branches, else_branch, .. } = &statements[0] else { panic!("if expected") };
    assert_eq!(else_if_branches.len(), 2);
    assert!(matches!(else_branch.as_deref(), Some(Stmt::BlockStmt { statements }) if statements.len() == 1));
}

#[test]
fn else_then_if_on_another_line_is_an_else_if() {
    let (statements, errors) = parse_source("if a { }\nelse\nif b { }");
    assert!(errors.is_empty());
    let Stmt::IfStmt { else_if_branches, else_branch, .. } = &statements[0] else { panic!("if expected") };
    assert_eq!(else_if_branches.len(), 1);
    assert!(else_branch.is_none());
}

#[test]
fn missing_semicolon_is_reported_and_parsing_goes_on() {
    let (statements, errors) = parse_source("print 1\nprint 2;");
    assert_eq!(errors.len(), 1);
    assert_eq!(errors[0].kind, ErrorKind::MissingSemicolon);
    assert_eq!(statements.len(), 2);
}

#[test]
fn missing_brace_is_reported() {
    let (_, errors) = parse_source("{ print 1;");
    assert_eq!(errors.len(), 1);
    assert_eq!(errors[0].kind, ErrorKind::MissingBrace);
}

#[test]
fn bad_declaration_becomes_an_invalid_statement() {
    let (statements, errors) = parse_source("var 1; print 2;");
    assert_eq!(errors.len(), 1);
    assert_eq!(errors[0].kind, ErrorKind::UnexpectedToken);
    assert!(matches!(statements[0], Stmt::Invalid { .. }));
    assert!(matches!(statements[1], Stmt::PrintStmt { .. }));
}

#[test]
fn if_without_block_is_reported() {
    let (statements, errors) = parse_source("if a print 1; print 2;");
    assert_eq!(errors[0].kind, ErrorKind::UnexpectedToken);
    assert!(matches!(statements[0], Stmt::Invalid { .. }));
    assert!(matches!(statements.last(), Some(Stmt::PrintStmt { .. })));
}

#[test]
fn unclosed_group_is_reported() {
    let (_, errors) = parse_source("print (1 + 2;");
    assert_eq!(errors.len(), 1);
    assert_eq!(errors[0].kind, ErrorKind::UnexpectedToken);
}

#[test]
fn empty_program_has_no_statements() {
    let (statements, errors) = parse_source("");
    assert!(statements.is_empty());
    assert!(errors.is_empty());
}
