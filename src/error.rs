use vstd::prelude::*;

verus! {

/// What went wrong, and in which phase.
#[derive(Clone, Copy, Debug, PartialEq, Eq, Structural)]
pub enum ErrorKind {
    /// Tokenizer: a character that no rule matches.
    UnrecognizedCharacter,
    /// Tokenizer: a `"` without its closing `"` on the same line.
    UnterminatedString,
    /// Tokenizer: a numeric lexeme that could not be read as a number.
    NumberParse,
    /// Parser: a token other than the one the grammar expects.
    UnexpectedToken,
    /// Parser: a statement that is not terminated by `;`.
    MissingSemicolon,
    /// Parser: a block that is not closed by `}`.
    MissingBrace,
    /// Evaluator: a name that no visible frame binds.
    UnknownIdentifier,
    /// Evaluator: `var` of a name that the innermost frame already binds.
    AlreadyDeclared,
    /// Evaluator: an operator applied to operands of the wrong types.
    TypeMismatch,
    /// Evaluator: a division by exactly zero.
    DivideByZero,
    /// Evaluator: the output could not be written.
    IoError,
    /// Evaluator: a construct that the language reserves but does not implement.
    Unimplemented,
}

/// A diagnostic of any phase: its kind, a one-sentence message, and where it happened.
#[derive(Clone, Debug, PartialEq)]
pub struct Error {
    pub kind: ErrorKind,
    pub msg: String,
    pub line: Option<usize>,
    pub column: usize,
    pub hint: Option<String>,
}

impl Error {
    pub fn new(kind: ErrorKind, msg: String, line: Option<usize>, column: usize, hint: Option<String>) -> (r: Error)
        ensures
            r.kind == kind,
            r.msg@ == msg@,
            r.line == line,
            r.column == column,
            r.hint == hint,
    {
        Error { kind, msg, line, column, hint }
    }
}

/// A diagnostic as a phase places it: kind, line and column.
pub type Diag = (ErrorKind, Option<usize>, usize);

pub open spec fn diags(es: Seq<Error>) -> Seq<Diag> {
    es.map_values(|e: Error| (e.kind, e.line, e.column))
}

/// A diagnostic of the scanner as the user sees it: kind, line, column and message.
pub type ScanDiag = (ErrorKind, Option<usize>, usize, Seq<char>);

/// The diagnostics, with their messages, other than failures to read a number.
pub open spec fn reported(es: Seq<Error>) -> Seq<ScanDiag>
    decreases es.len(),
{
    if es.len() == 0 {
        seq![]
    } else if es.last().kind == ErrorKind::NumberParse {
        reported(es.drop_last())
    } else {
        reported(es.drop_last()).push((es.last().kind, es.last().line, es.last().column, es.last().msg@))
    }
}

/// How many diagnostics are failures to read a number.
pub open spec fn number_failures(es: Seq<Error>) -> nat
    decreases es.len(),
{
    if es.len() == 0 {
        0
    } else if es.last().kind == ErrorKind::NumberParse {
        number_failures(es.drop_last()) + 1
    } else {
        number_failures(es.drop_last())
    }
}

/// The character of a decimal digit.
pub open spec fn decimal_digit(d: nat) -> char {
    if d == 0 {
        '0'
    } else if d == 1 {
        '1'
    } else if d == 2 {
        '2'
    } else if d == 3 {
        '3'
    } else if d == 4 {
        '4'
    } else if d == 5 {
        '5'
    } else if d == 6 {
        '6'
    } else if d == 7 {
        '7'
    } else if d == 8 {
        '8'
    } else {
        '9'
    }
}

/// The decimal numeral of `n`, without leading zeros.
pub open spec fn decimal(n: nat) -> Seq<char>
    decreases n,
{
    if n < 10 {
        seq![decimal_digit(n)]
    } else {
        decimal(n / 10).push(decimal_digit(n % 10))
    }
}

/// Appends the decimal numeral of `n`.
fn push_decimal(n: usize, s: &mut String)
    ensures
        final(s)@ == old(s)@ + decimal(n as nat),
    decreases n,
{
    if n >= 10 {
        push_decimal(n / 10, s);
    }
    let d = n % 10;
    let c: &str = if d == 0 {
        "0"
    } else if d == 1 {
        "1"
    } else if d == 2 {
        "2"
    } else if d == 3 {
        "3"
    } else if d == 4 {
        "4"
    } else if d == 5 {
        "5"
    } else if d == 6 {
        "6"
    } else if d == 7 {
        "7"
    } else if d == 8 {
        "8"
    } else {
        "9"
    };
    proof {
        reveal_strlit("0");
        reveal_strlit("1");
        reveal_strlit("2");
        reveal_strlit("3");
        reveal_strlit("4");
        reveal_strlit("5");
        reveal_strlit("6");
        reveal_strlit("7");
        reveal_strlit("8");
        reveal_strlit("9");
    }
    assert(c@ == seq![decimal_digit(d as nat)]);
    s.append(c);
    assert(final(s)@ =~= old(s)@ + decimal(n as nat)) by {
        if n >= 10 {
            assert(decimal(n as nat) == decimal((n / 10) as nat).push(decimal_digit((n % 10) as nat)));
        }
    }
}

/// How a diagnostic reads to the user: `Found an error at line <L>. <msg>` when the line is
/// known, the message alone otherwise.
pub open spec fn described(line: Option<usize>, msg: Seq<char>) -> Seq<char> {
    match line {
        Some(l) => "Found an error at line "@ + decimal(l as nat) + ". "@ + msg,
        None => msg,
    }
}

impl Error {
    /// The text that reports this diagnostic.
    pub fn describe(&self) -> (r: String)
        ensures
            r@ == described(self.line, self.msg@),
    {
        match self.line {
            Some(l) => {
                let mut s = String::from_str("Found an error at line ");
                push_decimal(l, &mut s);
                s.append(". ");
                s.append(self.msg.as_str());
                s
            },
            None => self.msg.clone(),
        }
    }
}

/// A diagnostic of the front end, where the line is always known.
#[derive(Clone, Debug)]
pub struct CompilerError {
    pub msg: String,
    pub line: usize,
    pub column: usize,
    pub hint: Option<String>,
}

impl CompilerError {
    pub fn new(msg: String, line: usize, column: usize, hint: Option<String>) -> (r: CompilerError)
        ensures
            r.msg@ == msg@,
            r.line == line,
            r.column == column,
            r.hint == hint,
    {
        CompilerError { line, column, msg, hint }
    }
}

} // verus!
