use lox::{evaluate, execute, interpret, parse, run, tokenize, Arithmetic, CompilerError, ElseIfBranch, Environment, Error, ErrorKind, Expr, Number, Phase, Stmt, Token, TokenKind, Value};

struct Host;

fn float(n: Number) -> f64 {
    f64::from_bits(n.to_bits())
}

fn number(x: f64) -> Number {
    Number::from_bits(x.to_bits())
}

impl Arithmetic for Host {
    fn parse_number(&self, text: &str) -> Option<Number> {
        text.parse::<f64>().ok().map(number)
    }

    fn add(&self, a: Number, b: Number) -> Number {
        number(float(a) + float(b))
    }

    fn sub(&self, a: Number, b: Number) -> Number {
        number(float(a) - float(b))
    }

    fn mul(&self, a: Number, b: Number) -> Number {
        number(float(a) * float(b))
    }

    fn div(&self, a: Number, b: Number) -> Number {
        number(float(a) / float(b))
    }

    fn format(&self, n: Number) -> String {
        float(n).to_string()
    }
}

fn op(kind: TokenKind, lexeme: &str) -> Token {
    Token { kind, lexeme: lexeme.into(), line: 0, column: 0, literal: None }
}

fn lit(v: Value) -> Box<Expr> {
    Box::new(Expr::LiteralExpression { value: Some(v) })
}

fn num(x: f64) -> Value {
    Value::Number(number(x))
}

fn env() -> Environment {
    Environment::new(String::from("linux"))
}

fn binary(left: Value, kind: TokenKind, lexeme: &str, right: Value) -> Expr {
    Expr::BinaryExpression { left: lit(left), operator: op(kind, lexeme), right: lit(right) }
}

fn expression_stmt(v: Value) -> Stmt {
    Stmt::ExpressionStmt { expression: lit(v) }
}

fn output_of(source: &str) -> Vec<String> {
    let mut e = env();
    let report = run(source, &mut e, &Host);
    assert!(report.errors.is_empty(), "unexpected errors: {:?}", report.errors);
    report.output
}

fn failure_of(source: &str) -> (Vec<String>, ErrorKind) {
    let mut e = env();
    let report = run(source, &mut e, &Host);
    assert_eq!(report.failed, Some(Phase::Evaluate));
    (report.output, report.errors[0].kind)
}

#[test]
fn binary_expressions() {
    assert_eq!(evaluate(&binary(num(1.0), TokenKind::Plus, "+", num(2.0)), &mut env(), &Host).unwrap(), num(3.0));
    assert_eq!(evaluate(&binary(num(1.0), TokenKind::Minus, "-", num(2.0)), &mut env(), &Host).unwrap(), num(-1.0));
    assert_eq!(evaluate(&binary(num(10.0), TokenKind::Star, "*", num(2.0)), &mut env(), &Host).unwrap(), num(20.0));
    assert_eq!(evaluate(&binary(num(10.0), TokenKind::Slash, "/", num(2.0)), &mut env(), &Host).unwrap(), num(5.0));
    assert_eq!(evaluate(&binary(num(10.0), TokenKind::Greater, ">", num(2.0)), &mut env(), &Host).unwrap(), Value::Boolean(true));
    assert_eq!(evaluate(&binary(num(10.0), TokenKind::GreaterEqual, ">=", num(2.0)), &mut env(), &Host).unwrap(), Value::Boolean(true));
    assert_eq!(evaluate(&binary(num(10.0), TokenKind::Less, "<", num(2.0)), &mut env(), &Host).unwrap(), Value::Boolean(false));
    assert_eq!(evaluate(&binary(num(10.0), TokenKind::LessEqual, "<=", num(2.0)), &mut env(), &Host).unwrap(), Value::Boolean(false));
    assert_eq!(evaluate(&binary(num(10.0), TokenKind::BangEqual, "!=", Value::Nil), &mut env(), &Host).unwrap(), Value::Boolean(true));
    assert_eq!(evaluate(&binary(num(10.0), TokenKind::EqualEqual, "==", Value::Nil), &mut env(), &Host).unwrap(), Value::Boolean(false));
}

#[test]
fn unary_expressions() {
    let expr = Expr::UnaryExpression { operator: op(TokenKind::Minus, "-"), right: lit(num(1.0)) };
    assert_eq!(evaluate(&expr, &mut env(), &Host).unwrap(), num(-1.0));
    let expr = Expr::UnaryExpression { operator: op(TokenKind::Bang, "!"), right: lit(Value::Boolean(true)) };
    assert_eq!(evaluate(&expr, &mut env(), &Host).unwrap(), Value::Boolean(false));
}

#[test]
fn var_decl_statement() {
    let stmt = Stmt::VarDeclStmt {
        name: op(TokenKind::Identifier, "a"),
        initializer: Expr::LiteralExpression { value: Some(num(1.0)) },
    };
    let mut e = env();
    let mut out = Vec::new();
    execute(&stmt, &mut e, &Host, &mut out).unwrap();
    assert_eq!(e.get(&String::from("a")).unwrap(), num(1.0));
}

#[test]
fn if_statements() {
    let stmt = Stmt::IfStmt {
        condition: lit(Value::Boolean(true)),
        then_branch: Box::new(expression_stmt(num(1.0))),
        else_if_branches: vec![],
        else_branch: None,
    };
    let mut out = Vec::new();
    assert!(execute(&stmt, &mut env(), &Host, &mut out).is_ok());

    let stmt = Stmt::IfStmt {
        condition: lit(Value::Boolean(false)),
        then_branch: Box::new(expression_stmt(num(1.0))),
        else_if_branches: vec![],
        else_branch: Some(Box::new(expression_stmt(num(2.0)))),
    };
    assert!(execute(&stmt, &mut env(), &Host, &mut out).is_ok());

    let stmt = Stmt::IfStmt {
        condition: lit(Value::Boolean(false)),
        then_branch: Box::new(expression_stmt(num(1.0))),
        else_if_branches: vec![ElseIfBranch {
            condition: lit(Value::Boolean(true)),
            then_branch: Box::new(expression_stmt(num(2.0))),
        }],
        else_branch: Some(Box::new(expression_stmt(num(3.0)))),
    };
    assert!(execute(&stmt, &mut env(), &Host, &mut out).is_ok());
    assert!(out.is_empty());
}

#[test]
fn arithmetic_and_precedence() {
    assert_eq!(output_of("print (1 + 2) * -3 / 2;"), vec!["-4.5"]);
}

#[test]
fn string_concatenation_with_number_coercion() {
    assert_eq!(output_of("var n = 42;\nprint \"answer=\" + n;"), vec!["answer=42"]);
    assert_eq!(output_of("print 1.5 + \"x\";"), vec!["1.5x"]);
}

#[test]
fn block_scoping_and_shadowing() {
    assert_eq!(output_of("var x = 1;\n{ var x = 2; print x; }\nprint x;"), vec!["2", "1"]);
}

#[test]
fn if_else_if_else() {
    let source = "var a = 3;\nif a == 1 { print \"one\"; }\nelse if a == 2 { print \"two\"; }\nelse if a == 3 { print \"three\"; }\nelse { print \"other\"; }";
    assert_eq!(output_of(source), vec!["three"]);
    assert_eq!(output_of("if nil { print 1; } else if 0 { print 2; } else { print 3; }"), vec!["3"]);
}

#[test]
fn short_circuit_logical() {
    let source = "var x = nil;\nprint x or \"default\";\nprint 0 or \"zero-was-falsy\";\nprint \"yes\" and 123;";
    assert_eq!(output_of(source), vec!["default", "zero-was-falsy", "123"]);
}

#[test]
fn runtime_errors() {
    let (out, kind) = failure_of("print 1 / 0;");
    assert!(out.is_empty());
    assert_eq!(kind, ErrorKind::DivideByZero);
    assert_eq!(failure_of("print \"x\" - 1;").1, ErrorKind::TypeMismatch);
    assert_eq!(failure_of("var a = 1; var a = 2;").1, ErrorKind::AlreadyDeclared);
}

#[test]
fn evaluation_stops_at_the_first_error() {
    let (out, kind) = failure_of("print 1; print y; print 2;");
    assert_eq!(out, vec!["1"]);
    assert_eq!(kind, ErrorKind::UnknownIdentifier);
}

#[test]
fn assignment_updates_the_frame_that_binds_the_name() {
    assert_eq!(output_of("var x = 1; { x = 2; print x; } print x;"), vec!["2", "2"]);
    assert_eq!(output_of("var x = 1; { var x = 5; x = 2; } print x;"), vec!["1"]);
    assert_eq!(failure_of("y = 1;").1, ErrorKind::UnknownIdentifier);
}

#[test]
fn shadowing_in_a_block_is_allowed() {
    assert_eq!(output_of("var a = 1; { var a = a; print a; }"), vec!["1"]);
}

#[test]
fn uninitialized_variable_is_nil() {
    assert_eq!(output_of("var a; print a;"), vec!["nil"]);
}

#[test]
fn printing_values() {
    assert_eq!(output_of("print true; print false; print nil; print \"s\"; print 0.1 + 0.2;"), vec!["true", "false", "nil", "s", "0.30000000000000004"]);
}

#[test]
fn os_is_built_in() {
    assert_eq!(output_of("print OS;"), vec!["linux"]);
}

#[test]
fn block_keeps_the_frame_count() {
    let mut e = env();
    assert_eq!(e.frame_count(), 1);
    let report = run("{ var a = 1; { var b = 2; } }", &mut e, &Host);
    assert!(report.errors.is_empty());
    assert_eq!(e.frame_count(), 1);
    let report = run("{ var a = 1; { print missing; } }", &mut e, &Host);
    assert_eq!(report.failed, Some(Phase::Evaluate));
    assert_eq!(e.frame_count(), 1);
}

#[test]
fn literal_yields_its_value() {
    for v in [num(2.5), Value::String(String::from("s")), Value::Boolean(true), Value::Nil] {
        let expr = Expr::LiteralExpression { value: Some(v.clone()) };
        assert_eq!(evaluate(&expr, &mut env(), &Host).unwrap(), v);
    }
    let expr = Expr::LiteralExpression { value: None };
    assert_eq!(evaluate(&expr, &mut env(), &Host).unwrap(), Value::Nil);
}

#[test]
fn double_negation_is_truthiness() {
    assert_eq!(output_of("print !!0; print !!1; print !!\"\"; print !!\"a\"; print !!nil; print !!true;"), vec!["false", "true", "false", "true", "false", "true"]);
}

#[test]
fn subtraction_and_division_undo_their_inverse() {
    for (a, b) in [(1.5, 0.25), (10.0, 3.0), (-7.0, 0.1)] {
        let back = evaluate(&binary(num(a), TokenKind::Minus, "-", num(b)), &mut env(), &Host).unwrap();
        let sum = evaluate(&Expr::BinaryExpression { left: lit(back), operator: op(TokenKind::Plus, "+"), right: lit(num(b)) }, &mut env(), &Host).unwrap();
        let Value::Number(n) = sum else { panic!("number expected") };
        assert!((f64::from_bits(n.to_bits()) - a).abs() < 1e-9);
        let product = evaluate(&binary(num(a), TokenKind::Star, "*", num(b)), &mut env(), &Host).unwrap();
        let quotient = evaluate(&Expr::BinaryExpression { left: lit(product), operator: op(TokenKind::Slash, "/"), right: lit(num(b)) }, &mut env(), &Host).unwrap();
        let Value::Number(n) = quotient else { panic!("number expected") };
        assert!((f64::from_bits(n.to_bits()) - a).abs() < 1e-9);
    }
}

#[test]
fn equality_laws() {
    assert_eq!(output_of("print 1 == 1; print \"a\" == \"a\"; print true == true; print nil == nil;"), vec!["true", "true", "true", "true"]);
    assert_eq!(output_of("print 1 == \"1\"; print nil == false; print 0 == false; print \"\" == nil;"), vec!["false", "false", "false", "false"]);
    assert_eq!(output_of("print 1 != 2; print 1 != \"1\"; print nil != nil; print nil != 0;"), vec!["true", "true", "false", "true"]);
    assert_eq!(output_of("print -0 == 0;"), vec!["true"]);
    let nan = Value::Number(Number::from_bits(f64::NAN.to_bits()));
    assert_eq!(evaluate(&binary(nan.clone(), TokenKind::EqualEqual, "==", nan), &mut env(), &Host).unwrap(), Value::Boolean(false));
}

#[test]
fn false_and_skips_its_right_operand() {
    assert_eq!(output_of("var x = 1; print false and (x = 2); print x;"), vec!["false", "1"]);
    assert_eq!(output_of("var x = 1; print true or (x = 2); print x;"), vec!["true", "1"]);
    assert_eq!(output_of("print false and undefined_name;"), vec!["false"]);
}

#[test]
fn comparisons_need_numbers() {
    assert_eq!(output_of("print 1 < 2; print 2 <= 2; print -1 > -2; print 3 >= 4;"), vec!["true", "true", "true", "false"]);
    assert_eq!(failure_of("print \"a\" < \"b\";").1, ErrorKind::TypeMismatch);
    assert_eq!(failure_of("print -\"a\";").1, ErrorKind::TypeMismatch);
    assert_eq!(failure_of("print true + 1;").1, ErrorKind::TypeMismatch);
}

#[test]
fn reserved_shapes_are_unimplemented() {
    let stmt = Stmt::WhileStmt { condition: lit(Value::Boolean(false)), body: Box::new(expression_stmt(Value::Nil)) };
    let mut out = Vec::new();
    assert_eq!(execute(&stmt, &mut env(), &Host, &mut out).unwrap_err().kind, ErrorKind::Unimplemented);
    let expr = Expr::SelfExpression { keyword: op(TokenKind::Self_, "self") };
    assert_eq!(evaluate(&expr, &mut env(), &Host).unwrap_err().kind, ErrorKind::Unimplemented);
}

#[test]
fn invalid_statement_is_an_immediate_error() {
    let (tokens, _) = tokenize("var 1; print 2;", &Host);
    let (statements, errors) = parse(&tokens);
    assert_eq!(errors.len(), 1);
    let (out, error) = interpret(&statements, &mut env(), &Host);
    assert!(out.is_empty());
    let error = error.unwrap();
    assert_eq!(error.kind, ErrorKind::UnexpectedToken);
    assert_eq!(error.msg, "Statement could not be parsed.");
    assert_eq!(error.line, Some(1));
}

#[test]
fn front_end_errors_stop_the_run() {
    let mut e = env();
    let report = run("print 1; ^", &mut e, &Host);
    assert_eq!(report.failed, Some(Phase::Tokenize));
    assert!(report.output.is_empty());
    let report = run("print 1", &mut e, &Host);
    assert_eq!(report.failed, Some(Phase::Parse));
    assert!(report.output.is_empty());
}

#[test]
fn same_source_runs_the_same_way() {
    let source = "var a = 2; print a * 3; { var a = \"s\"; print a + a; } print a / 0;";
    let mut e1 = env();
    let mut e2 = env();
    let r1 = run(source, &mut e1, &Host);
    let r2 = run(source, &mut e2, &Host);
    assert_eq!(r1.output, r2.output);
    assert_eq!(r1.errors, r2.errors);
    assert_eq!(r1.output, vec!["6", "ss"]);
}

#[test]
fn error_constructors_keep_their_fields() {
    let e = Error::new(ErrorKind::IoError, String::from("Error writing to stdout"), None, 3, Some(String::from("hint")));
    assert_eq!(e.kind, ErrorKind::IoError);
    assert_eq!(e.msg, "Error writing to stdout");
    assert_eq!(e.line, None);
    assert_eq!(e.column, 3);
    assert_eq!(e.hint.as_deref(), Some("hint"));
    let c = CompilerError::new(String::from("m"), 4, 5, None);
    assert_eq!((c.msg.as_str(), c.line, c.column, c.hint), ("m", 4, 5, None));
}

#[test]
fn diagnostics_read_with_their_line() {
    let e = Error::new(ErrorKind::DivideByZero, String::from("Cannot divide by zero."), Some(120), 0, None);
    assert_eq!(e.describe(), "Found an error at line 120. Cannot divide by zero.");
    let e = Error::new(ErrorKind::IoError, String::from("Error writing to stdout."), None, 0, None);
    assert_eq!(e.describe(), "Error writing to stdout.");
    let (_, kind) = failure_of("\n\nprint 1 / 0;");
    assert_eq!(kind, ErrorKind::DivideByZero);
    let mut env = env();
    let report = run("\n\nprint 1 / 0;", &mut env, &Host);
    assert_eq!(report.errors[0].describe(), "Found an error at line 3. Cannot divide by zero.");
}
