use lox::{tokenize, Arithmetic, ErrorKind, Number, TokenKind, Tokenizer, Value};

struct Host;

fn float(n: Number) -> f64 {
    f64::from_bits(n.to_bits())
}

fn number(x: f64) -> Number {
    Number::from_bits(x.to_bits())
}

impl Arithmetic for Host {
    fn parse_number(&self, text: &str) -> Option<Number> {
        text.parse::<f64>().ok().map(number)
    }

    fn add(&self, a: Number, b: Number) -> Number {
        number(float(a) + float(b))
    }

    fn sub(&self, a: Number, b: Number) -> Number {
        number(float(a) - float(b))
    }

    fn mul(&self, a: Number, b: Number) -> Number {
        number(float(a) * float(b))
    }

    fn div(&self, a: Number, b: Number) -> Number {
        number(float(a) / float(b))
    }

    fn format(&self, n: Number) -> String {
        float(n).to_string()
    }
}

/// A host that cannot read any number.
struct NoNumbers;

impl Arithmetic for NoNumbers {
    fn parse_number(&self, _text: &str) -> Option<Number> {
        None
    }

    fn add(&self, a: Number, _b: Number) -> Number {
        a
    }

    fn sub(&self, a: Number, _b: Number) -> Number {
        a
    }

    fn mul(&self, a: Number, _b: Number) -> Number {
        a
    }

    fn div(&self, a: Number, _b: Number) -> Number {
        a
    }

    fn format(&self, _n: Number) -> String {
        String::new()
    }
}

#[test]
fn tokenizer_scan_tokens() {
    let input = "\
            var name = \"Lox\";

            if name == \"Lox\" {
                print \"Hello, \" + name + \"!\";
            } else {
                print \"Hello, world!\";
            }
            ";
    let mut tokenizer = Tokenizer::new(input);
    let (tokens, errors) = tokenizer.scan_tokens(&Host);
    assert_eq!(tokens.len(), 25);
    assert_eq!(errors.len(), 0);
}

#[test]
fn tokenizer_comments() {
    let input = "() // This is a comment )";
    let mut tokenizer = Tokenizer::new(input);
    let (tokens, errors) = tokenizer.scan_tokens(&Host);
    assert_eq!(tokens.len(), 3);
    assert_eq!(errors.len(), 0);
}

#[test]
fn tokenizer_whitespace() {
    let input = " ( ) ";
    let mut tokenizer = Tokenizer::new(input);
    let (tokens, errors) = tokenizer.scan_tokens(&Host);
    assert_eq!(tokens.len(), 3);
    assert_eq!(errors.len(), 0);
}

#[test]
fn tokenizer_strings() {
    let input = "\"Hello, world!\"";
    let mut tokenizer = Tokenizer::new(input);
    let (tokens, errors) = tokenizer.scan_tokens(&Host);
    assert_eq!(tokens.len(), 2);
    assert_eq!(errors.len(), 0);
}

#[test]
fn tokenizer_unterminated_string() {
    let input = "\"Hello, world!))";
    let mut tokenizer = Tokenizer::new(input);
    let (tokens, errors) = tokenizer.scan_tokens(&Host);
    assert_eq!(tokens.len(), 1);
    assert_eq!(errors.len(), 1);
    assert_eq!(errors[0].line, Some(1));
}

#[test]
fn unterminated_string_multiple_lines_src() {
    let input = "\"Hello, world!))\n var x = 1;";
    let mut tokenizer = Tokenizer::new(input);
    let (tokens, errors) = tokenizer.scan_tokens(&Host);
    assert_eq!(tokens.len(), 6);
    assert_eq!(errors.len(), 1);
    assert_eq!(errors[0].line, Some(1));
}

#[test]
fn tokenizer_unexpected_token() {
    let input = "var x = 5;^";
    let mut tokenizer = Tokenizer::new(input);
    let (tokens, errors) = tokenizer.scan_tokens(&Host);
    assert_eq!(tokens.len(), 6);
    assert_eq!(errors.len(), 1);
}

#[test]
fn tokenizer_multiple_errors() {
    let input = "(*^) (+^) (^)";
    let mut tokenizer = Tokenizer::new(input);
    let (tokens, errors) = tokenizer.scan_tokens(&Host);
    assert_eq!(tokens.len(), 9);
    assert_eq!(errors.len(), 3);
}

#[test]
fn tokenizer_error_message() {
    let input = "(*^)";
    let mut tokenizer = Tokenizer::new(input);
    let (tokens, errors) = tokenizer.scan_tokens(&Host);
    assert_eq!(tokens.len(), 4);
    assert_eq!(errors.len(), 1);
    assert_eq!(errors[0].msg, String::from("Unrecognized character \"^\"."));
}

#[test]
fn tokenizer_test_scan_tokens() {
    let input = "(*)";
    let mut tokenizer = Tokenizer::new(input);
    let (tokens, errors) = tokenizer.scan_tokens(&Host);
    assert_eq!(tokens.len(), 4);
    assert_eq!(errors.len(), 0);
}

#[test]
fn tokenizer_test_comments() {
    let input = "() // This is a comment )";
    let mut tokenizer = Tokenizer::new(input);
    let (tokens, errors) = tokenizer.scan_tokens(&Host);
    assert_eq!(tokens.len(), 3);
    assert_eq!(errors.len(), 0);
}

#[test]
fn tokenizer_test_whitespace() {
    let input = " ( ) ";
    let mut tokenizer = Tokenizer::new(input);
    let (tokens, errors) = tokenizer.scan_tokens(&Host);
    assert_eq!(tokens.len(), 3);
    assert_eq!(errors.len(), 0);
}

#[test]
fn tokenizer_test_strings() {
    let input = "\"Hello, world!\"";
    let mut tokenizer = Tokenizer::new(input);
    let (tokens, errors) = tokenizer.scan_tokens(&Host);
    assert_eq!(tokens.len(), 2);
    assert_eq!(errors.len(), 0);
}

#[test]
fn tokenizer_test_unterminated_string() {
    let input = "\"Hello, world!))";
    let mut tokenizer = Tokenizer::new(input);
    let (tokens, errors) = tokenizer.scan_tokens(&Host);
    assert_eq!(tokens.len(), 1);
    assert_eq!(errors.len(), 1);
}

#[test]
fn lexer_test_scan_tokens() {
    let (tokens, errors) = tokenize("(*)", &Host);
    assert_eq!(tokens.len(), 4);
    assert_eq!(errors.len(), 0);
}

#[test]
fn lexer_test_comments() {
    let (tokens, errors) = tokenize("() // This is a comment )", &Host);
    assert_eq!(tokens.len(), 3);
    assert_eq!(errors.len(), 0);
}

#[test]
fn lexer_test_whitespace() {
    let (tokens, errors) = tokenize(" ( ) ", &Host);
    assert_eq!(tokens.len(), 3);
    assert_eq!(errors.len(), 0);
}

#[test]
fn lexer_test_strings() {
    let (tokens, errors) = tokenize("\"Hello, world!\"", &Host);
    assert_eq!(tokens.len(), 2);
    assert_eq!(errors.len(), 0);
}

#[test]
fn lexer_test_unexpected_token() {
    let (tokens, errors) = tokenize("(*^)", &Host);
    assert_eq!(tokens.len(), 4);
    assert_eq!(errors.len(), 1);
}

#[test]
fn lexer_test_multiple_errors() {
    let (tokens, errors) = tokenize("(*^) (+^) (^)", &Host);
    assert_eq!(tokens.len(), 9);
    assert_eq!(errors.len(), 3);
}

#[test]
fn last_token_is_always_eof() {
    for source in ["", "var a = 1;", "\"open", "^^^", "print (1 + 2);\n// done", "a\n\nb"] {
        let (tokens, _) = tokenize(source, &Host);
        assert_eq!(tokens.last().map(|t| t.kind), Some(TokenKind::Eof));
        assert_eq!(tokens.iter().filter(|t| t.kind == TokenKind::Eof).count(), 1);
    }
}

#[test]
fn keywords_and_identifiers() {
    let (tokens, errors) = tokenize("and class else elif false for fun if nil or print return super self true var while name", &Host);
    assert!(errors.is_empty());
    let kinds: Vec<TokenKind> = tokens.iter().map(|t| t.kind).collect();
    assert_eq!(
        kinds,
        vec![
            TokenKind::And,
            TokenKind::Class,
            TokenKind::Else,
            TokenKind::ElseIf,
            TokenKind::False,
            TokenKind::For,
            TokenKind::Fun,
            TokenKind::If,
            TokenKind::Nil,
            TokenKind::Or,
            TokenKind::Print,
            TokenKind::Return,
            TokenKind::Super,
            TokenKind::Self_,
            TokenKind::True,
            TokenKind::Var,
            TokenKind::While,
            TokenKind::Identifier,
            TokenKind::Eof,
        ]
    );
    assert_eq!(tokens[17].lexeme, "name");
}

#[test]
fn else_if_is_one_token() {
    let (tokens, errors) = tokenize("} else if a {", &Host);
    assert!(errors.is_empty());
    assert_eq!(tokens[1].kind, TokenKind::ElseIf);
    assert_eq!(tokens[1].lexeme, "else if");
    assert_eq!(tokens[2].kind, TokenKind::Identifier);
    let (tokens, _) = tokenize("else iffy", &Host);
    assert_eq!(tokens[0].kind, TokenKind::Else);
    assert_eq!(tokens[1].lexeme, "iffy");
}

#[test]
fn operators_take_their_two_character_forms() {
    let (tokens, _) = tokenize("! != = == < <= > >= / - + * ; , . { }", &Host);
    let kinds: Vec<TokenKind> = tokens.iter().map(|t| t.kind).collect();
    assert_eq!(
        kinds,
        vec![
            TokenKind::Bang,
            TokenKind::BangEqual,
            TokenKind::Equal,
            TokenKind::EqualEqual,
            TokenKind::Less,
            TokenKind::LessEqual,
            TokenKind::Greater,
            TokenKind::GreaterEqual,
            TokenKind::Slash,
            TokenKind::Minus,
            TokenKind::Plus,
            TokenKind::Star,
            TokenKind::Semicolon,
            TokenKind::Comma,
            TokenKind::Dot,
            TokenKind::LeftBrace,
            TokenKind::RightBrace,
            TokenKind::Eof,
        ]
    );
}

#[test]
fn identifiers_end_at_operators() {
    let (tokens, _) = tokenize("a+b", &Host);
    assert_eq!(tokens.len(), 4);
    assert_eq!(tokens[0].lexeme, "a");
    assert_eq!(tokens[1].kind, TokenKind::Plus);
}

#[test]
fn literals_carry_their_values() {
    let (tokens, errors) = tokenize("\"Lox\" 45.67 12.", &Host);
    assert!(errors.is_empty());
    assert_eq!(tokens[0].literal, Some(Value::String(String::from("Lox"))));
    assert_eq!(tokens[0].lexeme, "\"Lox\"");
    assert_eq!(tokens[1].literal, Some(Value::Number(Number::from_bits(45.67f64.to_bits()))));
    assert_eq!(tokens[1].lexeme, "45.67");
    assert_eq!(tokens[2].lexeme, "12");
    assert_eq!(tokens[3].kind, TokenKind::Dot);
    assert_eq!(tokens[0].literal.is_some() && tokens[3].literal.is_none(), true);
}

#[test]
fn positions_are_one_based_per_line() {
    let (tokens, _) = tokenize("var a;\n  print a;", &Host);
    assert_eq!((tokens[0].line, tokens[0].column), (1, 1));
    assert_eq!((tokens[1].line, tokens[1].column), (1, 5));
    assert_eq!((tokens[3].line, tokens[3].column), (2, 3));
}

#[test]
fn unterminated_string_reports_its_opening_position() {
    let (tokens, errors) = tokenize("x \"abc\ny", &Host);
    assert_eq!(errors.len(), 1);
    assert_eq!(errors[0].kind, ErrorKind::UnterminatedString);
    assert_eq!((errors[0].line, errors[0].column), (Some(1), 3));
    assert_eq!(tokens[1].lexeme, "y");
    assert_eq!(tokens[1].line, 2);
}

#[test]
fn unrecognized_character_is_reported() {
    let (_, errors) = tokenize("@", &Host);
    assert_eq!(errors[0].kind, ErrorKind::UnrecognizedCharacter);
}

#[test]
fn unreadable_number_is_reported_and_reads_as_zero() {
    let (tokens, errors) = tokenize("7", &NoNumbers);
    assert_eq!(errors.len(), 1);
    assert_eq!(errors[0].kind, ErrorKind::NumberParse);
    assert_eq!(tokens[0].literal, Some(Value::Number(Number::from_bits(0))));
    assert_eq!(errors[0].line, Some(tokens[0].line));
    assert_eq!(errors[0].column, tokens[0].column);
    assert_eq!(errors[0].msg, "Error parsing number.");
}

#[test]
fn unterminated_string_message() {
    let (_, errors) = tokenize("\"abc", &Host);
    assert_eq!(errors[0].msg, "Unterminated string.");
}
