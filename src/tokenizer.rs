use vstd::prelude::*;
use crate::error::{number_failures, reported, Error, ErrorKind, ScanDiag};
use crate::token::{keyword_kind, match_keyword, word_kind, Token, TokenKind};
use crate::value::{Arithmetic, Number, Value};

verus! {

/// Relies on `str::chars`: the characters of the text, in order.
#[verifier::external_body]
fn chars_of(s: &str) -> (r: Vec<char>)
    ensures
        r@ == s@,
{
    s.chars().collect()
}

/// Relies on `String::from_iter`: the string of the given characters, in order.
#[verifier::external_body]
fn string_of(cs: &[char]) -> (r: String)
    ensures
        r@ == cs@,
{
    cs.iter().collect()
}

pub open spec fn is_digit(c: char) -> bool {
    '0' <= c && c <= '9'
}

pub open spec fn is_alpha(c: char) -> bool {
    ('a' <= c && c <= 'z') || ('A' <= c && c <= 'Z')
}

/// A character that may continue an identifier.
pub open spec fn is_word_char(c: char) -> bool {
    is_alpha(c) || is_digit(c) || c == '_'
}

/// What holds of every token that the scanner emits before the final `Eof`.
pub open spec fn token_ok(t: Token) -> bool {
    &&& t.kind != TokenKind::Eof
    &&& t.line >= 1
    &&& t.column >= 1
    &&& t.lexeme@.len() >= 1
    &&& (t.kind == TokenKind::String <==> t.literal matches Some(Value::String(_)))
    &&& (t.kind == TokenKind::Number <==> t.literal matches Some(Value::Number(_)))
    &&& (t.literal is Some ==> t.kind == TokenKind::String || t.kind == TokenKind::Number)
    &&& (t.kind == TokenKind::String ==> (t.literal matches Some(Value::String(s)) && t.lexeme@
        == seq!['"'] + s@ + seq!['"']))
    &&& (t.kind == TokenKind::Identifier ==> keyword_kind(t.lexeme@) is None && is_alpha(
        t.lexeme@[0],
    ))
}

/// What holds of every diagnostic of the scanner.
pub open spec fn scan_error_ok(e: Error) -> bool {
    &&& (e.kind == ErrorKind::UnrecognizedCharacter || e.kind == ErrorKind::UnterminatedString
        || e.kind == ErrorKind::NumberParse)
    &&& e.line matches Some(l) && l >= 1
    &&& e.column >= 1
}

/// What holds of the result of a complete scan: tokens that end in exactly one `Eof`.
pub open spec fn scan_ok(tokens: Seq<Token>, errors: Seq<Error>) -> bool {
    &&& tokens.len() >= 1
    &&& tokens.last().kind == TokenKind::Eof
    &&& tokens.last().literal is None
    &&& tokens.last().line >= 1
    &&& forall|i: int| 0 <= i < tokens.len() - 1 ==> token_ok(#[trigger] tokens[i])
    &&& forall|i: int| 0 <= i < errors.len() ==> scan_error_ok(#[trigger] errors[i])
}

/// The first index from `j` on whose character does not satisfy `p`, or the length.
pub open spec fn skip_while(src: Seq<char>, j: int, p: spec_fn(char) -> bool) -> int
    decreases src.len() - j,
{
    if j < 0 || j >= src.len() {
        j
    } else if p(src[j]) {
        skip_while(src, j + 1, p)
    } else {
        j
    }
}

/// Characters that a comment runs over.
pub open spec fn comment_char() -> spec_fn(char) -> bool {
    |c: char| c != '\n'
}

/// Characters that a string literal runs over.
pub open spec fn string_char() -> spec_fn(char) -> bool {
    |c: char| c != '"' && c != '\n'
}

pub open spec fn digit_char() -> spec_fn(char) -> bool {
    |c: char| is_digit(c)
}

pub open spec fn word_char() -> spec_fn(char) -> bool {
    |c: char| is_word_char(c)
}

/// Blanks that may stand between `else` and `if`.
pub open spec fn blank_char() -> spec_fn(char) -> bool {
    |c: char| c == ' ' || c == '\t'
}

/// The kind of a one-character token.
pub open spec fn single_kind(c: char) -> Option<TokenKind> {
    if c == '(' {
        Some(TokenKind::LeftParen)
    } else if c == ')' {
        Some(TokenKind::RightParen)
    } else if c == '{' {
        Some(TokenKind::LeftBrace)
    } else if c == '}' {
        Some(TokenKind::RightBrace)
    } else if c == ',' {
        Some(TokenKind::Comma)
    } else if c == '.' {
        Some(TokenKind::Dot)
    } else if c == '-' {
        Some(TokenKind::Minus)
    } else if c == '+' {
        Some(TokenKind::Plus)
    } else if c == ';' {
        Some(TokenKind::Semicolon)
    } else if c == '*' {
        Some(TokenKind::Star)
    } else {
        None
    }
}

/// The kinds of an operator that may be followed by `=`: alone, and with the `=`.
pub open spec fn operator_kinds(c: char) -> Option<(TokenKind, TokenKind)> {
    if c == '!' {
        Some((TokenKind::Bang, TokenKind::BangEqual))
    } else if c == '=' {
        Some((TokenKind::Equal, TokenKind::EqualEqual))
    } else if c == '<' {
        Some((TokenKind::Less, TokenKind::LessEqual))
    } else if c == '>' {
        Some((TokenKind::Greater, TokenKind::GreaterEqual))
    } else {
        None
    }
}

/// The end of a number that starts at `i`: digits, then `.` and digits if a digit follows the `.`.
pub open spec fn number_end(src: Seq<char>, i: int) -> int {
    let d = skip_while(src, i + 1, digit_char());
    if d + 1 < src.len() && src[d] == '.' && is_digit(src[d + 1]) {
        skip_while(src, d + 1, digit_char())
    } else {
        d
    }
}

/// The end of an `if` that follows a word ending at `w` on the same line, past blanks.
pub open spec fn else_if_end(src: Seq<char>, w: int) -> Option<int> {
    let k = skip_while(src, w, blank_char());
    if k + 1 < src.len() && src[k] == 'i' && src[k + 1] == 'f' && (k + 2 >= src.len()
        || !is_word_char(src[k + 2])) {
        Some(k + 2)
    } else {
        None
    }
}

/// The lexeme that starts at `i` with a character other than a blank or a newline: the kind
/// of its token (none for a comment or a diagnostic) and the index just past it.
pub open spec fn lexeme_at(src: Seq<char>, i: int) -> (Option<TokenKind>, int) {
    let c = src[i];
    if single_kind(c) is Some {
        (single_kind(c), i + 1)
    } else if let Some((one, two)) = operator_kinds(c) {
        if i + 1 < src.len() && src[i + 1] == '=' {
            (Some(two), i + 2)
        } else {
            (Some(one), i + 1)
        }
    } else if c == '/' {
        if i + 1 < src.len() && src[i + 1] == '/' {
            (None, skip_while(src, i + 2, comment_char()))
        } else {
            (Some(TokenKind::Slash), i + 1)
        }
    } else if c == '"' {
        let e = skip_while(src, i + 1, string_char());
        if e < src.len() && src[e] == '"' {
            (Some(TokenKind::String), e + 1)
        } else {
            (None, e)
        }
    } else if is_digit(c) {
        (Some(TokenKind::Number), number_end(src, i))
    } else if is_alpha(c) {
        let w = skip_while(src, i + 1, word_char());
        let k = word_kind(src.subrange(i, w));
        if k == TokenKind::Else && else_if_end(src, w) is Some {
            (Some(TokenKind::ElseIf), else_if_end(src, w)->0)
        } else {
            (Some(k), w)
        }
    } else {
        (None, i + 1)
    }
}

/// `t` spans `src[start..end]` and stands on `line`, whose first character is at `ls`.
pub open spec fn placed(t: Token, src: Seq<char>, start: int, end: int, line: int, ls: int) -> bool {
    &&& t.lexeme@ == src.subrange(start, end)
    &&& t.line == line
    &&& t.column == start - ls + 1
}

/// A token as the scanner places it: kind, lexeme, line and column.
pub type Shape = (TokenKind, Seq<char>, int, int);

pub open spec fn shape(t: Token) -> Shape {
    (t.kind, t.lexeme@, t.line as int, t.column as int)
}

pub open spec fn shapes(ts: Seq<Token>) -> Seq<Shape> {
    ts.map_values(|t: Token| shape(t))
}

/// One step of the scanner at `i`, on line `line` whose first character is at `ls`: the token
/// it emits, if any, and where it leaves index, line and line start.
pub open spec fn step(src: Seq<char>, i: int, line: int, ls: int) -> (Option<Shape>, int, int, int) {
    let c = src[i];
    if c == '\n' {
        (None, i + 1, line + 1, i + 1)
    } else if c == ' ' || c == '\r' || c == '\t' {
        (None, i + 1, line, ls)
    } else {
        let (k, e) = lexeme_at(src, i);
        (
            match k {
                Some(kind) => Some((kind, src.subrange(i, e), line, i - ls + 1)),
                None => None,
            },
            e,
            line,
            ls,
        )
    }
}

/// The diagnostic of one step, if it has one that does not depend on reading a number: an
/// unterminated string or an unrecognized character, placed at the lexeme's start.
pub open spec fn step_error(src: Seq<char>, i: int, line: int, ls: int) -> Option<ScanDiag> {
    let c = src[i];
    if c == '\n' || c == ' ' || c == '\r' || c == '\t' || lexeme_at(src, i).0 is Some || c == '/' {
        None
    } else if c == '"' {
        Some(
            (
                ErrorKind::UnterminatedString,
                Some(line as usize),
                (i - ls + 1) as usize,
                "Unterminated string."@,
            ),
        )
    } else {
        Some(
            (
                ErrorKind::UnrecognizedCharacter,
                Some(line as usize),
                (i - ls + 1) as usize,
                "Unrecognized character \""@ + seq![c] + "\"."@,
            ),
        )
    }
}

/// A failure to read a number reported at the number token `t`, which then reads as 0.
pub open spec fn number_failure_at(t: Token, e: Error) -> bool {
    &&& t.kind == TokenKind::Number
    &&& e.line == Some(t.line)
    &&& e.column == t.column
    &&& t.literal == Some(Value::Number(Number { bits: 0 }))
}

/// Every failure to read a number stands at a number token that reads as 0.
pub open spec fn failures_at_numbers(tokens: Seq<Token>, errors: Seq<Error>) -> bool {
    forall|j: int|
        0 <= j < errors.len() && (#[trigger] errors[j]).kind == ErrorKind::NumberParse ==> exists|k: int|
            0 <= k < tokens.len() && number_failure_at(#[trigger] tokens[k], errors[j])
}

/// How many tokens are numbers.
pub open spec fn number_tokens(ts: Seq<Token>) -> nat
    decreases ts.len(),
{
    if ts.len() == 0 {
        0
    } else if ts.last().kind == TokenKind::Number {
        number_tokens(ts.drop_last()) + 1
    } else {
        number_tokens(ts.drop_last())
    }
}

pub open spec fn emitted_error(d: Option<ScanDiag>) -> Seq<ScanDiag> {
    match d {
        Some(x) => seq![x],
        None => seq![],
    }
}

/// The diagnostics, other than failures to read a number, that scanning from `i` reports.
pub open spec fn scan_errors_from(src: Seq<char>, i: int, line: int, ls: int) -> Seq<ScanDiag>
    decreases src.len() - i,
{
    if i < 0 || i >= src.len() {
        seq![]
    } else {
        let (t, e, l2, ls2) = step(src, i, line, ls);
        if e <= i || e > src.len() {
            seq![]
        } else {
            emitted_error(step_error(src, i, line, ls)) + scan_errors_from(src, e, l2, ls2)
        }
    }
}

/// The tokens, before the final `Eof`, that scanning from `i` emits.
pub open spec fn scan_from(src: Seq<char>, i: int, line: int, ls: int) -> Seq<Shape>
    decreases src.len() - i,
{
    if i < 0 || i >= src.len() {
        seq![]
    } else {
        let (t, e, l2, ls2) = step(src, i, line, ls);
        if e <= i || e > src.len() {
            seq![]
        } else {
            match t {
                Some(sh) => seq![sh] + scan_from(src, e, l2, ls2),
                None => scan_from(src, e, l2, ls2),
            }
        }
    }
}

proof fn lemma_skip_while(src: Seq<char>, j: int, m: int, p: spec_fn(char) -> bool)
    requires
        0 <= j <= m <= src.len(),
        forall|k: int| j <= k < m ==> p(#[trigger] src[k]),
        m == src.len() || !p(src[m]),
    ensures
        skip_while(src, j, p) == m,
    decreases m - j,
{
    if j < m {
        lemma_skip_while(src, j + 1, m, p);
    }
}

/// The scanner's state over the characters of one source text.
pub struct Tokenizer {
    source: Vec<char>,
    start_of_lexeme: usize,
    current_char: usize,
    line: usize,
    line_start: usize,
}

impl Tokenizer {
    pub closed spec fn wf(&self) -> bool {
        &&& self.source@.len() < usize::MAX
        &&& self.current_char <= self.source@.len()
        &&& self.line_start <= self.start_of_lexeme <= self.current_char
        &&& 1 <= self.line <= self.current_char + 1
    }

    pub closed spec fn src(&self) -> Seq<char> {
        self.source@
    }

    pub closed spec fn pos(&self) -> int {
        self.current_char as int
    }

    pub closed spec fn line_no(&self) -> int {
        self.line as int
    }

    pub closed spec fn line_begin(&self) -> int {
        self.line_start as int
    }

    pub closed spec fn at_end(&self) -> bool {
        self.current_char >= self.source@.len()
    }

    pub fn new(source: &str) -> (r: Tokenizer)
        requires
            source@.len() < usize::MAX,
        ensures
            r.wf(),
            r.src() == source@,
            r.pos() == 0,
            r.line_no() == 1,
            r.line_begin() == 0,
    {
        Tokenizer {
            source: chars_of(source),
            start_of_lexeme: 0,
            current_char: 0,
            line: 1,
            line_start: 0,
        }
    }

    fn is_at_end(&self) -> (r: bool)
        requires
            self.wf(),
        ensures
            r == self.at_end(),
    {
        self.current_char >= self.source.len()
    }

    /// The character under the cursor, or `'\0'` at the end.
    fn peek(&self) -> (r: char)
        requires
            self.wf(),
        ensures
            !self.at_end() ==> r == self.source@[self.current_char as int],
            self.at_end() ==> r == '\0',
    {
        if self.is_at_end() {
            '\0'
        } else {
            self.source[self.current_char]
        }
    }

    /// The character after the one under the cursor, or `'\0'`.
    fn peek_next(&self) -> (r: char)
        requires
            self.wf(),
        ensures
            self.current_char + 1 < self.source@.len() ==> r == self.source@[self.current_char + 1],
            self.current_char + 1 >= self.source@.len() ==> r == '\0',
    {
        if self.current_char + 1 >= self.source.len() {
            '\0'
        } else {
            self.source[self.current_char + 1]
        }
    }

    /// Consumes the character under the cursor and returns it.
    fn advance(&mut self) -> (r: char)
        requires
            old(self).wf(),
            !old(self).at_end(),
        ensures
            final(self).wf(),
            r == old(self).source@[old(self).current_char as int],
            final(self).current_char == old(self).current_char + 1,
            final(self).source == old(self).source,
            final(self).line == old(self).line,
            final(self).line_start == old(self).line_start,
            final(self).start_of_lexeme == old(self).start_of_lexeme,
    {
        let c = self.source[self.current_char];
        self.current_char = self.current_char + 1;
        c
    }

    /// Consumes the character under the cursor when it is `expected`.
    fn match_char(&mut self, expected: char) -> (r: bool)
        requires
            old(self).wf(),
        ensures
            final(self).wf(),
            r == (!old(self).at_end() && old(self).source@[old(self).current_char as int]
                == expected),
            final(self).current_char == old(self).current_char + if r {
                1int
            } else {
                0
            },
            final(self).source == old(self).source,
            final(self).line == old(self).line,
            final(self).line_start == old(self).line_start,
            final(self).start_of_lexeme == old(self).start_of_lexeme,
    {
        if self.is_at_end() {
            return false;
        }
        if self.source[self.current_char] != expected {
            return false;
        }
        self.current_char = self.current_char + 1;
        true
    }

    /// The 1-based column of the lexeme that is being scanned.
    fn column(&self) -> (r: usize)
        requires
            self.wf(),
        ensures
            r == self.start_of_lexeme - self.line_start + 1,
            r >= 1,
    {
        self.start_of_lexeme - self.line_start + 1
    }

    /// A token of the given kind over the lexeme scanned so far.
    fn make_token(&self, kind: TokenKind, literal: Option<Value>) -> (r: Token)
        requires
            self.wf(),
        ensures
            r.kind == kind,
            r.literal == literal,
            r.lexeme@ == self.source@.subrange(
                self.start_of_lexeme as int,
                self.current_char as int,
            ),
            r.line == self.line,
            r.column == self.start_of_lexeme - self.line_start + 1,
    {
        let text = string_of(&self.source.as_slice()[self.start_of_lexeme..self.current_char]);
        Token { kind, lexeme: text, line: self.line, column: self.column(), literal }
    }

    fn make_error(&self, kind: ErrorKind, msg: String) -> (r: Error)
        requires
            self.wf(),
        ensures
            r.kind == kind,
            r.msg@ == msg@,
            r.line == Some(self.line),
            r.column >= 1,
            r.column == self.start_of_lexeme - self.line_start + 1,
            scan_error_ok(r) <== (kind == ErrorKind::UnrecognizedCharacter || kind
                == ErrorKind::UnterminatedString || kind == ErrorKind::NumberParse),
    {
        Error::new(kind, msg, Some(self.line), self.column(), None)
    }
}

impl Tokenizer {
    /// Appends `t` and keeps every appended token well formed.
    fn push_token(tokens: &mut Vec<Token>, t: Token)
        requires
            token_ok(t),
            forall|i: int| 0 <= i < old(tokens)@.len() ==> token_ok(#[trigger] old(tokens)@[i]),
        ensures
            final(tokens)@ == old(tokens)@.push(t),
            forall|i: int| 0 <= i < final(tokens)@.len() ==> token_ok(#[trigger] final(tokens)@[i]),
            number_tokens(final(tokens)@) == number_tokens(old(tokens)@) + if t.kind
                == TokenKind::Number {
                1nat
            } else {
                0
            },
    {
        let ghost before = tokens@;
        tokens.push(t);
        assert(tokens@.drop_last() =~= before);
    }

    fn push_error(errors: &mut Vec<Error>, e: Error)
        requires
            scan_error_ok(e),
            forall|i: int| 0 <= i < old(errors)@.len() ==> scan_error_ok(#[trigger] old(errors)@[i]),
        ensures
            final(errors)@ == old(errors)@.push(e),
            forall|i: int| 0 <= i < final(errors)@.len() ==> scan_error_ok(
                #[trigger] final(errors)@[i],
            ),
            reported(final(errors)@) == if e.kind == ErrorKind::NumberParse {
                reported(old(errors)@)
            } else {
                reported(old(errors)@).push((e.kind, e.line, e.column, e.msg@))
            },
            number_failures(final(errors)@) == number_failures(old(errors)@) + if e.kind
                == ErrorKind::NumberParse {
                1nat
            } else {
                0
            },
    {
        let ghost before = errors@;
        errors.push(e);
        proof {
            assert(errors@.drop_last() =~= before);
        }
    }

    /// A one-character operator, or its two-character form when the next character is `=`.
    fn operator_token(&mut self, one: TokenKind, two: TokenKind) -> (r: Token)
        requires
            old(self).wf(),
            old(self).current_char == old(self).start_of_lexeme + 1,
            operator_kinds(old(self).source@[old(self).start_of_lexeme as int]) == Some((one, two)),
        ensures
            final(self).wf(),
            final(self).start_of_lexeme == old(self).start_of_lexeme,
            final(self).source == old(self).source,
            final(self).line == old(self).line,
            final(self).line_start == old(self).line_start,
            lexeme_at(old(self).source@, old(self).start_of_lexeme as int) == (
            Some(r.kind), final(self).current_char as int),
            placed(r, old(self).source@, old(self).start_of_lexeme as int, final(self).current_char as int, old(self).line as int, old(self).line_start as int),
            token_ok(r),
    {
        let kind = if self.match_char('=') {
            two
        } else {
            one
        };
        self.make_token(kind, None)
    }

    /// After an opening `"`: the string token, or an error at a newline or the end of input.
    fn string_token(&mut self) -> (r: Result<Token, Error>)
        requires
            old(self).wf(),
            old(self).current_char == old(self).start_of_lexeme + 1,
            old(self).source@[old(self).start_of_lexeme as int] == '"',
        ensures
            final(self).wf(),
            final(self).start_of_lexeme == old(self).start_of_lexeme,
            final(self).source == old(self).source,
            final(self).line == old(self).line,
            final(self).line_start == old(self).line_start,
            lexeme_at(old(self).source@, old(self).start_of_lexeme as int).1 == final(self).current_char,
            r is Ok <==> lexeme_at(old(self).source@, old(self).start_of_lexeme as int).0 == Some(TokenKind::String),
            r is Err ==> lexeme_at(old(self).source@, old(self).start_of_lexeme as int).0 is None,
            r matches Ok(t) ==> token_ok(t) && t.kind == TokenKind::String && placed(t, old(self).source@, old(self).start_of_lexeme as int, final(self).current_char as int, old(self).line as int, old(self).line_start as int),
            r matches Err(e) ==> scan_error_ok(e) && e.kind == ErrorKind::UnterminatedString
                && e.line == Some(old(self).line) && e.column == old(self).start_of_lexeme - old(
                self,
            ).line_start + 1 && e.msg@ == "Unterminated string."@,
    {
        let ghost src = self.source@;
        let ghost start = self.start_of_lexeme as int;
        while self.peek() != '"' && !self.is_at_end() && self.peek() != '\n'
            invariant
                self.wf(),
                self.current_char > self.start_of_lexeme,
                self.start_of_lexeme == old(self).start_of_lexeme,
                self.source == old(self).source,
                src == self.source@,
                start == self.start_of_lexeme,
                self.line == old(self).line,
                self.line_start == old(self).line_start,
                forall|k: int| start + 1 <= k < self.current_char ==> string_char()(#[trigger] src[k]),
            decreases self.source@.len() - self.current_char,
        {
            self.advance();
        }
        proof {
            lemma_skip_while(src, start + 1, self.current_char as int, string_char());
        }
        if self.is_at_end() || self.peek() == '\n' {
            proof {
                reveal_strlit("Unterminated string.");
            }
            return Err(self.make_error(ErrorKind::UnterminatedString, String::from_str("Unterminated string.")));
        }
        self.advance();
        let inner = string_of(
            &self.source.as_slice()[self.start_of_lexeme + 1..self.current_char - 1],
        );
        let ghost s = inner@;
        let t = self.make_token(TokenKind::String, Some(Value::String(inner)));
        assert(t.lexeme@ =~= seq!['"'] + s + seq!['"']);
        Ok(t)
    }

    /// Advances over digits.
    fn skip_digits(&mut self)
        requires
            old(self).wf(),
            old(self).current_char > old(self).start_of_lexeme,
        ensures
            final(self).wf(),
            final(self).start_of_lexeme == old(self).start_of_lexeme,
            final(self).source == old(self).source,
            final(self).line == old(self).line,
            final(self).line_start == old(self).line_start,
            final(self).current_char == skip_while(old(self).source@, old(self).current_char as int, digit_char()),
            final(self).current_char >= old(self).current_char,
    {
        let ghost src = self.source@;
        let ghost from = self.current_char as int;
        while !self.is_at_end() && is_digit_char(self.peek())
            invariant
                self.wf(),
                self.current_char >= from,
                from > self.start_of_lexeme,
                self.start_of_lexeme == old(self).start_of_lexeme,
                self.source == old(self).source,
                src == self.source@,
                from == old(self).current_char,
                self.line == old(self).line,
                self.line_start == old(self).line_start,
                forall|k: int| from <= k < self.current_char ==> digit_char()(#[trigger] src[k]),
            decreases self.source@.len() - self.current_char,
        {
            self.advance();
        }
        proof {
            lemma_skip_while(src, from, self.current_char as int, digit_char());
        }
    }

    /// After a first digit: the number token, with its value read by `arith`.
    fn number_token<A: Arithmetic>(&mut self, arith: &A) -> (r: (Token, Option<Error>))
        requires
            old(self).wf(),
            old(self).current_char == old(self).start_of_lexeme + 1,
        ensures
            final(self).wf(),
            final(self).start_of_lexeme == old(self).start_of_lexeme,
            final(self).source == old(self).source,
            final(self).line == old(self).line,
            final(self).line_start == old(self).line_start,
            final(self).current_char == number_end(old(self).source@, old(self).start_of_lexeme as int),
            placed(r.0, old(self).source@, old(self).start_of_lexeme as int, final(self).current_char as int, old(self).line as int, old(self).line_start as int),
            token_ok(r.0),
            r.0.kind == TokenKind::Number,
            r.1 matches Some(e) ==> scan_error_ok(e) && e.kind == ErrorKind::NumberParse
                && number_failure_at(r.0, e),
    {
        self.skip_digits();
        if self.peek() == '.' && is_digit_char(self.peek_next()) {
            self.advance();
            self.skip_digits();
        }
        let text = string_of(&self.source.as_slice()[self.start_of_lexeme..self.current_char]);
        match arith.parse_number(text.as_str()) {
            Some(n) => (self.make_token(TokenKind::Number, Some(Value::Number(n))), None),
            None => {
                let t = self.make_token(
                    TokenKind::Number,
                    Some(Value::Number(Number::from_bits(0))),
                );
                proof {
                    reveal_strlit("Error parsing number.");
                }
                let e = self.make_error(ErrorKind::NumberParse, String::from_str("Error parsing number."));
                (t, Some(e))
            },
        }
    }

    /// After a first letter: an identifier or keyword. `else` followed on the same line by the
    /// word `if` is one `ElseIf` token.
    fn word_token(&mut self) -> (r: Token)
        requires
            old(self).wf(),
            old(self).current_char == old(self).start_of_lexeme + 1,
            is_alpha(old(self).source@[old(self).start_of_lexeme as int]),
        ensures
            final(self).wf(),
            final(self).start_of_lexeme == old(self).start_of_lexeme,
            final(self).source == old(self).source,
            final(self).line == old(self).line,
            final(self).line_start == old(self).line_start,
            lexeme_at(old(self).source@, old(self).start_of_lexeme as int) == (
            Some(r.kind), final(self).current_char as int),
            placed(r, old(self).source@, old(self).start_of_lexeme as int, final(self).current_char as int, old(self).line as int, old(self).line_start as int),
            token_ok(r),
    {
        let ghost src = self.source@;
        let ghost start = self.start_of_lexeme as int;
        while !self.is_at_end() && is_word_char_exec(self.peek())
            invariant
                self.wf(),
                self.current_char > self.start_of_lexeme,
                self.start_of_lexeme == old(self).start_of_lexeme,
                self.source == old(self).source,
                src == self.source@,
                start == self.start_of_lexeme,
                self.line == old(self).line,
                self.line_start == old(self).line_start,
                forall|k: int| start + 1 <= k < self.current_char ==> word_char()(#[trigger] src[k]),
            decreases self.source@.len() - self.current_char,
        {
            self.advance();
        }
        proof {
            lemma_skip_while(src, start + 1, self.current_char as int, word_char());
        }
        let kind = match_keyword(&self.source.as_slice()[self.start_of_lexeme..self.current_char]);
        if kind == TokenKind::Else {
            // look past blanks for a following `if`
            let w = self.current_char;
            let mut k = self.current_char;
            while k < self.source.len() && (self.source[k] == ' ' || self.source[k] == '\t')
                invariant
                    self.wf(),
                    src == self.source@,
                    w <= k <= self.source@.len(),
                    forall|j: int| w <= j < k ==> blank_char()(#[trigger] src[j]),
                decreases self.source@.len() - k,
            {
                k = k + 1;
            }
            proof {
                lemma_skip_while(src, w as int, k as int, blank_char());
            }
            if k + 1 < self.source.len() && self.source[k] == 'i' && self.source[k + 1] == 'f' && (
            k + 2 >= self.source.len() || !is_word_char_exec(self.source[k + 2])) {
                self.current_char = k + 2;
                return self.make_token(TokenKind::ElseIf, None);
            }
        }
        self.make_token(kind, None)
    }
}

/// The tokens a step emits.
pub open spec fn emitted(t: Option<Shape>) -> Seq<Shape> {
    match t {
        Some(sh) => seq![sh],
        None => seq![],
    }
}

impl Tokenizer {
    /// Scans one lexeme starting at the cursor: appends its token, or its diagnostic, or
    /// nothing for blanks, newlines and comments; exactly as `step` says.
    fn scan_token<A: Arithmetic>(&mut self, arith: &A, tokens: &mut Vec<Token>, errors: &mut Vec<Error>)
        requires
            old(self).wf(),
            !old(self).at_end(),
            old(self).start_of_lexeme == old(self).current_char,
            forall|i: int| 0 <= i < old(tokens)@.len() ==> token_ok(#[trigger] old(tokens)@[i]),
            forall|i: int| 0 <= i < old(errors)@.len() ==> scan_error_ok(#[trigger] old(errors)@[i]),
        ensures
            final(self).wf(),
            final(self).current_char > old(self).current_char,
            final(self).source == old(self).source,
            ({
                let (t, e, l2, ls2) = step(old(self).source@, old(self).current_char as int, old(self).line as int, old(self).line_start as int);
                &&& final(self).current_char == e
                &&& final(self).line == l2
                &&& final(self).line_start == ls2
                &&& shapes(final(tokens)@) == shapes(old(tokens)@) + emitted(t)
                &&& reported(final(errors)@) == reported(old(errors)@)
                    + emitted_error(step_error(old(self).source@, old(self).current_char as int, old(self).line as int, old(self).line_start as int))
            }),
            final(tokens)@.len() >= old(tokens)@.len(),
            final(tokens)@.subrange(0, old(tokens)@.len() as int) == old(tokens)@,
            final(errors)@.len() >= old(errors)@.len(),
            final(errors)@.subrange(0, old(errors)@.len() as int) == old(errors)@,
            forall|j: int|
                old(errors)@.len() <= j < final(errors)@.len() && (#[trigger] final(errors)@[j]).kind
                    == ErrorKind::NumberParse ==> final(tokens)@.len() > old(tokens)@.len()
                    && number_failure_at(final(tokens)@.last(), final(errors)@[j]),
            forall|i: int| 0 <= i < final(tokens)@.len() ==> token_ok(#[trigger] final(tokens)@[i]),
            number_failures(final(errors)@) + number_tokens(old(tokens)@) <= number_tokens(
                final(tokens)@,
            ) + number_failures(old(errors)@),
            forall|i: int| 0 <= i < final(errors)@.len() ==> scan_error_ok(
                #[trigger] final(errors)@[i],
            ),
    {
        let ghost old_tokens = tokens@;
        let ghost old_errs = errors@;
        let ghost old_errors = reported(errors@);
        let ghost src = self.source@;
        let ghost start = self.current_char as int;
        let ghost line = self.line as int;
        let ghost ls = self.line_start as int;
        let c = self.advance();
        if c == '\n' {
            self.line = self.line + 1;
            self.line_start = self.current_char;
            self.start_of_lexeme = self.current_char;
            assert(shapes(tokens@) =~= shapes(old_tokens) + emitted(None));
            assert(old_errors + emitted_error(None) =~= old_errors);
            return ;
        }
        if c == ' ' || c == '\r' || c == '\t' {
            assert(shapes(tokens@) =~= shapes(old_tokens) + emitted(None));
            assert(old_errors + emitted_error(None) =~= old_errors);
            return ;
        }
        let single = if c == '(' {
            Some(TokenKind::LeftParen)
        } else if c == ')' {
            Some(TokenKind::RightParen)
        } else if c == '{' {
            Some(TokenKind::LeftBrace)
        } else if c == '}' {
            Some(TokenKind::RightBrace)
        } else if c == ',' {
            Some(TokenKind::Comma)
        } else if c == '.' {
            Some(TokenKind::Dot)
        } else if c == '-' {
            Some(TokenKind::Minus)
        } else if c == '+' {
            Some(TokenKind::Plus)
        } else if c == ';' {
            Some(TokenKind::Semicolon)
        } else if c == '*' {
            Some(TokenKind::Star)
        } else {
            None
        };
        assert(single == single_kind(c));
        let ghost mut emitted_token: Option<Token> = None;
        if let Some(kind) = single {
            let t = self.make_token(kind, None);
            proof {
                emitted_token = Some(t);
            }
            Self::push_token(tokens, t);
        } else if c == '!' {
            let t = self.operator_token(TokenKind::Bang, TokenKind::BangEqual);
            proof {
                emitted_token = Some(t);
            }
            Self::push_token(tokens, t);
        } else if c == '=' {
            let t = self.operator_token(TokenKind::Equal, TokenKind::EqualEqual);
            proof {
                emitted_token = Some(t);
            }
            Self::push_token(tokens, t);
        } else if c == '<' {
            let t = self.operator_token(TokenKind::Less, TokenKind::LessEqual);
            proof {
                emitted_token = Some(t);
            }
            Self::push_token(tokens, t);
        } else if c == '>' {
            let t = self.operator_token(TokenKind::Greater, TokenKind::GreaterEqual);
            proof {
                emitted_token = Some(t);
            }
            Self::push_token(tokens, t);
        } else if c == '/' {
            if self.match_char('/') {
                while self.peek() != '\n' && !self.is_at_end()
                    invariant
                        self.wf(),
                        self.current_char >= start + 2,
                        self.source == old(self).source,
                        src == self.source@,
                        self.line == old(self).line,
                        self.line_start == old(self).line_start,
                        forall|k: int| start + 2 <= k < self.current_char ==> comment_char()(#[trigger] src[k]),
                    decreases self.source@.len() - self.current_char,
                {
                    self.advance();
                }
                proof {
                    lemma_skip_while(src, start + 2, self.current_char as int, comment_char());
                }
            } else {
                let t = self.make_token(TokenKind::Slash, None);
                proof {
                    emitted_token = Some(t);
                }
                Self::push_token(tokens, t);
            }
        } else if c == '"' {
            match self.string_token() {
                Ok(t) => {
                    proof {
                        emitted_token = Some(t);
                    }
                    Self::push_token(tokens, t)
                },
                Err(e) => Self::push_error(errors, e),
            }
        } else if is_digit_char(c) {
            let (t, e) = self.number_token(arith);
            proof {
                emitted_token = Some(t);
            }
            Self::push_token(tokens, t);
            if let Some(e) = e {
                Self::push_error(errors, e);
            }
        } else if is_alpha_char(c) {
            let t = self.word_token();
            proof {
                emitted_token = Some(t);
            }
            Self::push_token(tokens, t);
        } else {
            proof {
                reveal_strlit("Unrecognized character \"");
                reveal_strlit("\".");
            }
            let mut msg = String::from_str("Unrecognized character \"");
            let single: [char; 1] = [c];
            let shown = string_of(&single);
            assert(shown@ =~= seq![c]);
            msg.append(shown.as_str());
            msg.append("\".");
            assert(msg@ == "Unrecognized character \""@ + seq![c] + "\"."@);
            let e = self.make_error(ErrorKind::UnrecognizedCharacter, msg);
            Self::push_error(errors, e);
        }
        proof {
            let se = step_error(src, start, line, ls);
            match se {
                Some(d) => {
                    assert(reported(errors@) =~= old_errors + seq![d]);
                },
                None => {
                    assert(reported(errors@) =~= old_errors + seq![]);
                },
            }
            assert(tokens@.subrange(0, old_tokens.len() as int) =~= old_tokens);
            assert(errors@.subrange(0, old_errs.len() as int) =~= old_errs);
            let (k, e) = lexeme_at(src, start);
            assert(self.current_char == e);
            match emitted_token {
                Some(t) => {
                    assert(placed(t, src, start, e, line, ls));
                    assert(k == Some(t.kind));
                    assert(tokens@ == old_tokens.push(t));
                    assert(shapes(tokens@) =~= shapes(old_tokens) + emitted(Some(shape(t))));
                },
                None => {
                    assert(k is None);
                    assert(tokens@ == old_tokens);
                    assert(shapes(tokens@) =~= shapes(old_tokens) + emitted(None));
                },
            }
        }
    }

    /// Scans the whole remaining source: the tokens, ending in one `Eof`, and the diagnostics.
    pub fn scan_tokens<A: Arithmetic>(&mut self, arith: &A) -> (r: (Vec<Token>, Vec<Error>))
        requires
            old(self).wf(),
        ensures
            final(self).wf(),
            scan_ok(r.0@, r.1@),
            shapes(r.0@.drop_last()) == scan_from(old(self).src(), old(self).pos(), old(self).line_no(), old(self).line_begin()),
            reported(r.1@) == scan_errors_from(old(self).src(), old(self).pos(), old(self).line_no(), old(self).line_begin()),
            number_failures(r.1@) <= number_tokens(r.0@),
            failures_at_numbers(r.0@, r.1@),
    {
        let mut tokens: Vec<Token> = Vec::new();
        let mut errors: Vec<Error> = Vec::new();
        let ghost all = scan_from(self.source@, self.current_char as int, self.line as int, self.line_start as int);
        let ghost all_errors = scan_errors_from(self.source@, self.current_char as int, self.line as int, self.line_start as int);
        assert(shapes(tokens@) + all =~= all);
        assert(reported(errors@) + all_errors =~= all_errors);
        while !self.is_at_end()
            invariant
                self.wf(),
                self.source == old(self).source,
                all == scan_from(old(self).src(), old(self).pos(), old(self).line_no(), old(self).line_begin()),
                shapes(tokens@) + scan_from(self.source@, self.current_char as int, self.line as int, self.line_start as int) == all,
                all_errors == scan_errors_from(old(self).src(), old(self).pos(), old(self).line_no(), old(self).line_begin()),
                reported(errors@) + scan_errors_from(self.source@, self.current_char as int, self.line as int, self.line_start as int) == all_errors,
                forall|i: int| 0 <= i < tokens@.len() ==> token_ok(#[trigger] tokens@[i]),
                forall|i: int| 0 <= i < errors@.len() ==> scan_error_ok(#[trigger] errors@[i]),
                number_failures(errors@) <= number_tokens(tokens@),
                failures_at_numbers(tokens@, errors@),
            decreases self.source@.len() - self.current_char,
        {
            let ghost toks_b = tokens@;
            let ghost errs_b = errors@;
            let ghost before = shapes(tokens@);
            let ghost before_errors = reported(errors@);
            let ghost (t, e, l2, ls2) = step(self.source@, self.current_char as int, self.line as int, self.line_start as int);
            let ghost se = step_error(self.source@, self.current_char as int, self.line as int, self.line_start as int);
            self.start_of_lexeme = self.current_char;
            self.scan_token(arith, &mut tokens, &mut errors);
            proof {
                let rest = scan_from(self.source@, self.current_char as int, self.line as int, self.line_start as int);
                assert(before + emitted(t) + rest =~= before + (emitted(t) + rest));
                let rest_errors = scan_errors_from(self.source@, self.current_char as int, self.line as int, self.line_start as int);
                assert(before_errors + emitted_error(se) + rest_errors =~= before_errors + (emitted_error(se) + rest_errors));
                assert forall|j: int|
                    0 <= j < errors@.len() && (#[trigger] errors@[j]).kind == ErrorKind::NumberParse implies exists|k: int|
                        0 <= k < tokens@.len() && number_failure_at(#[trigger] tokens@[k], errors@[j]) by {
                    if j < errs_b.len() {
                        assert(errors@[j] == errs_b[j]);
                        let k = choose|k: int| 0 <= k < toks_b.len() && number_failure_at(#[trigger] toks_b[k], errs_b[j]);
                        assert(tokens@[k] == toks_b[k]);
                    } else {
                        assert(number_failure_at(tokens@[tokens@.len() - 1], errors@[j]));
                    }
                }
            }
        }
        self.start_of_lexeme = self.current_char;
        let eof = Token {
            kind: TokenKind::Eof,
            lexeme: String::new(),
            line: self.line,
            column: self.column(),
            literal: None,
        };
        let ghost body = tokens@;
        tokens.push(eof);
        proof {
            assert(tokens@.drop_last() =~= body);
            assert(shapes(body) + seq![] =~= shapes(body));
            assert(reported(errors@) + seq![] =~= reported(errors@));
            assert(tokens@.drop_last() =~= body);
            assert forall|j: int|
                0 <= j < errors@.len() && (#[trigger] errors@[j]).kind == ErrorKind::NumberParse implies exists|k: int|
                    0 <= k < tokens@.len() && number_failure_at(#[trigger] tokens@[k], errors@[j]) by {
                let k = choose|k: int| 0 <= k < body.len() && number_failure_at(#[trigger] body[k], errors@[j]);
                assert(tokens@[k] == body[k]);
            }
        }
        (tokens, errors)
    }
}

/// Tokenizes a source text: its tokens, always ending in exactly one `Eof`, and its diagnostics.
/// Before the `Eof` the tokens are exactly those of `scan_from`, in kind, lexeme, line and
/// column; the diagnostics, but for numbers that the host could not read, are exactly those of
/// `scan_errors_from`. Malformed input yields diagnostics and never stops the scan.
pub fn tokenize<A: Arithmetic>(source: &str, arith: &A) -> (r: (Vec<Token>, Vec<Error>))
    requires
        source@.len() < usize::MAX,
    ensures
        scan_ok(r.0@, r.1@),
        shapes(r.0@.drop_last()) == scan_from(source@, 0, 1, 0),
        reported(r.1@) == scan_errors_from(source@, 0, 1, 0),
        number_failures(r.1@) <= number_tokens(r.0@),
        failures_at_numbers(r.0@, r.1@),
{
    let mut t = Tokenizer::new(source);
    t.scan_tokens(arith)
}

fn is_digit_char(c: char) -> (r: bool)
    ensures
        r == is_digit(c),
{
    '0' <= c && c <= '9'
}

fn is_alpha_char(c: char) -> (r: bool)
    ensures
        r == is_alpha(c),
{
    ('a' <= c && c <= 'z') || ('A' <= c && c <= 'Z')
}

fn is_word_char_exec(c: char) -> (r: bool)
    ensures
        r == is_word_char(c),
{
    is_alpha_char(c) || is_digit_char(c) || c == '_'
}

} // verus!
