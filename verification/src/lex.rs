//! The lexer: from text to tokens, one at a time.
//!
//! The text is taken as a sequence of characters; every position in this
//! module counts characters, not bytes.

use crate::error::{Error, ErrorKind};
use vstd::prelude::*;
use vstd::string::StrSliceExecFns;

verus! {

/// The kinds of token.
#[derive(Debug, Clone, Copy, PartialEq, Eq, Structural)]
pub enum Token {
    Plus,
    Minus,
    Star,
    Slash,
    Dice,
    ParenL,
    ParenR,
    /// One or more decimal digits.
    Number,
    /// One or more characters that belong to no other token.
    Error,
    /// The end of the text.
    Eof,
}

impl Token {
    /// The token as written, or its name where it has no fixed spelling.
    pub open spec fn text(self) -> Seq<char> {
        match self {
            Token::Plus => "+"@,
            Token::Minus => "-"@,
            Token::Star => "*"@,
            Token::Slash => "/"@,
            Token::Dice => "d"@,
            Token::ParenL => "("@,
            Token::ParenR => ")"@,
            Token::Number => "number"@,
            Token::Error => "<error>"@,
            Token::Eof => "<eof>"@,
        }
    }

    pub fn as_str(&self) -> (text: &'static str)
        ensures
            text@ == self.text(),
    {
        match self {
            Token::Plus => "+",
            Token::Minus => "-",
            Token::Star => "*",
            Token::Slash => "/",
            Token::Dice => "d",
            Token::ParenL => "(",
            Token::ParenR => ")",
            Token::Number => "number",
            Token::Error => "<error>",
            Token::Eof => "<eof>",
        }
    }
}

/// Whether `c` is white space, as Unicode defines it.
pub open spec fn is_space(c: char) -> bool {
    let u = c as u32;
    ||| 0x09 <= u <= 0x0d
    ||| u == 0x20
    ||| u == 0x85
    ||| u == 0xa0
    ||| u == 0x1680
    ||| 0x2000 <= u <= 0x200a
    ||| u == 0x2028
    ||| u == 0x2029
    ||| u == 0x202f
    ||| u == 0x205f
    ||| u == 0x3000
}

/// The kind of token that `c` begins or goes on, or `None` where `c` is
/// white space.
#[verifier::opaque]
pub open spec fn starts(c: char) -> Option<Token> {
    if is_space(c) {
        None
    } else if c == '+' {
        Some(Token::Plus)
    } else if c == '-' {
        Some(Token::Minus)
    } else if c == '*' {
        Some(Token::Star)
    } else if c == '/' {
        Some(Token::Slash)
    } else if c == 'd' {
        Some(Token::Dice)
    } else if c == '(' {
        Some(Token::ParenL)
    } else if c == ')' {
        Some(Token::ParenR)
    } else if '0' <= c <= '9' {
        Some(Token::Number)
    } else {
        Some(Token::Error)
    }
}

/// How many characters of `text` from `from` on are of the same `kind`,
/// counted up to the first that is not.
#[verifier::opaque]
pub open spec fn run(text: Seq<char>, from: int, kind: Option<Token>) -> nat
    decreases text.len() - from,
{
    if 0 <= from < text.len() && starts(text[from]) == kind {
        1 + run(text, from + 1, kind)
    } else {
        0
    }
}

/// A token with the characters that it spans: those from `start` up to,
/// not including, `end`.
pub struct Lexeme {
    pub token: Token,
    pub start: int,
    pub end: int,
}

/// The first token of `text` at or after `from`. White space before it is
/// passed over. A number takes all the digits that follow one another, an
/// error token all the characters in a row that fit no other token, any
/// other token one character. Where only white space is left the token is
/// `Eof`, empty and at the end of the text.
pub open spec fn lexeme_at(text: Seq<char>, from: int) -> Lexeme {
    let start = from + run(text, from, None);
    if 0 <= start < text.len() {
        match starts(text[start]) {
            Some(Token::Number) => Lexeme {
                token: Token::Number,
                start,
                end: start + 1 + run(text, start + 1, Some(Token::Number)),
            },
            Some(Token::Error) => Lexeme {
                token: Token::Error,
                start,
                end: start + 1 + run(text, start + 1, Some(Token::Error)),
            },
            Some(token) => Lexeme { token, start, end: start + 1 },
            None => Lexeme { token: Token::Eof, start, end: start },
        }
    } else {
        Lexeme { token: Token::Eof, start, end: start }
    }
}

/// The characters that `lexeme` spans.
pub open spec fn spelling(text: Seq<char>, lexeme: Lexeme) -> Seq<char> {
    text.subrange(lexeme.start, lexeme.end)
}

/// A run ends inside the text, at a character of another kind or at the
/// end, and all that it passes is of its kind.
pub proof fn lemma_run(text: Seq<char>, from: int, kind: Option<Token>)
    requires
        0 <= from <= text.len(),
    ensures
        from + run(text, from, kind) <= text.len(),
        from + run(text, from, kind) < text.len() ==> starts(
            text[from + run(text, from, kind)],
        ) != kind,
        forall|i: int|
            from <= i < from + run(text, from, kind) ==> starts(#[trigger] text[i]) == kind,
    decreases text.len() - from,
{
    reveal(run);
    if from < text.len() && starts(text[from]) == kind {
        lemma_run(text, from + 1, kind);
    }
}

/// A token lies inside the text, after the place the scan began at. Only
/// `Eof` is empty, it sits at the end of the text, and a number is made
/// of digits.
pub proof fn lemma_lexeme_at(text: Seq<char>, from: int)
    requires
        0 <= from <= text.len(),
    ensures
        from <= lexeme_at(text, from).start <= lexeme_at(text, from).end <= text.len(),
        lexeme_at(text, from).token == Token::Eof ==> lexeme_at(text, from).start == text.len(),
        lexeme_at(text, from).token != Token::Eof ==> lexeme_at(text, from).start < lexeme_at(
            text,
            from,
        ).end,
        lexeme_at(text, from).token == Token::Number ==> forall|i: int|
            lexeme_at(text, from).start <= i < lexeme_at(text, from).end ==> '0'
                <= #[trigger] text[i] <= '9',
{
    reveal(starts);
    lemma_run(text, from, None);
    let start = from + run(text, from, None);
    if start < text.len() {
        lemma_run(text, start + 1, Some(Token::Number));
        lemma_run(text, start + 1, Some(Token::Error));
    }
}

/// A token as the lexer hands it out: its kind and the characters it spans.
#[derive(Debug, Clone, Copy, PartialEq, Eq)]
pub struct Span {
    pub token: Token,
    pub start: usize,
    pub end: usize,
}

impl View for Span {
    type V = Lexeme;

    open spec fn view(&self) -> Lexeme {
        Lexeme { token: self.token, start: self.start as int, end: self.end as int }
    }
}

/// Whether `c` is white space.
pub fn is_whitespace(c: char) -> (space: bool)
    ensures
        space == is_space(c),
{
    let u = c as u32;
    (0x09 <= u && u <= 0x0d) || u == 0x20 || u == 0x85 || u == 0xa0 || u == 0x1680 || (0x2000 <= u
        && u <= 0x200a) || u == 0x2028 || u == 0x2029 || u == 0x202f || u == 0x205f || u == 0x3000
}

/// The kind of token that `c` begins, or `None` for white space.
pub fn kind_of(c: char) -> (kind: Option<Token>)
    ensures
        kind == starts(c),
{
    reveal(starts);
    if is_whitespace(c) {
        None
    } else if c == '+' {
        Some(Token::Plus)
    } else if c == '-' {
        Some(Token::Minus)
    } else if c == '*' {
        Some(Token::Star)
    } else if c == '/' {
        Some(Token::Slash)
    } else if c == 'd' {
        Some(Token::Dice)
    } else if c == '(' {
        Some(Token::ParenL)
    } else if c == ')' {
        Some(Token::ParenR)
    } else if '0' <= c && c <= '9' {
        Some(Token::Number)
    } else {
        Some(Token::Error)
    }
}

/// Whether `a` and `b` are the same kind.
fn same_kind(a: Option<Token>, b: Option<Token>) -> (same: bool)
    ensures
        same == (a == b),
{
    match (a, b) {
        (None, None) => true,
        (Some(x), Some(y)) => x == y,
        _ => false,
    }
}

/// The end of the run of `kind` that begins at `from`.
#[verifier::loop_isolation(false)]
fn scan(chars: &Vec<char>, from: usize, kind: Option<Token>) -> (end: usize)
    requires
        from <= chars.len(),
    ensures
        end == from + run(chars@, from as int, kind),
        end <= chars.len(),
{
    reveal(run);
    let mut end = from;
    while end < chars.len() && same_kind(kind_of(chars[end]), kind)
        invariant
            from <= end <= chars.len(),
            from + run(chars@, from as int, kind) == end + run(chars@, end as int, kind),
        decreases chars.len() - end,
    {
        end += 1;
    }
    end
}

/// The first token of `chars` at or after `from`.
pub fn next_token(chars: &Vec<char>, from: usize) -> (span: Span)
    requires
        from <= chars.len(),
    ensures
        span@ == lexeme_at(chars@, from as int),
        from <= span.start <= span.end <= chars.len(),
{
    proof {
        lemma_lexeme_at(chars@, from as int);
    }
    let start = scan(chars, from, None);
    if start < chars.len() {
        match kind_of(chars[start]) {
            Some(Token::Number) => Span {
                token: Token::Number,
                start,
                end: scan(chars, start + 1, Some(Token::Number)),
            },
            Some(Token::Error) => Span {
                token: Token::Error,
                start,
                end: scan(chars, start + 1, Some(Token::Error)),
            },
            Some(token) => Span { token, start, end: start + 1 },
            None => Span { token: Token::Eof, start, end: start },
        }
    } else {
        Span { token: Token::Eof, start, end: start }
    }
}

/// The characters of `input`, one by one.
pub fn chars_of(input: &str) -> (chars: Vec<char>)
    ensures
        chars@ == input@,
{
    let mut chars: Vec<char> = Vec::new();
    for c in it: input.chars()
        invariant
            chars@ == it.seq().take(it.index() as int),
            it.seq() == input@,
    {
        chars.push(c);
    }
    chars
}

/// What passing the token at `from` comes to: the number of characters up
/// to its end, or the error token that follows it.
pub open spec fn passed(text: Seq<char>, from: int) -> Result<nat, ErrorKind> {
    let after = lexeme_at(text, lexeme_at(text, from).end);
    if after.token == Token::Error {
        Err(ErrorKind::UnexpectedInput(spelling(text, after)))
    } else {
        Ok((lexeme_at(text, from).end - from) as nat)
    }
}

/// What requiring `token` at `from` comes to: as passing it where it is
/// there, else a failure that names what is there instead.
pub open spec fn required(text: Seq<char>, from: int, token: Token) -> Result<nat, ErrorKind> {
    let found = lexeme_at(text, from);
    if found.token == token {
        passed(text, from)
    } else if found.token == Token::Eof {
        Err(ErrorKind::ExpectedInput(token.text(), None))
    } else {
        Err(ErrorKind::ExpectedInput(token.text(), Some(spelling(text, found))))
    }
}

/// A cursor over a text, with the token at the cursor read ahead.
pub struct Lexer<'a> {
    pub input: &'a str,
    /// The characters of `input`.
    pub chars: Vec<char>,
    /// Where the scan for `current` began: the end of the token before it.
    pub position: usize,
    /// The first token at or after `position`.
    pub current: Span,
}

impl<'a> Lexer<'a> {
    /// The cursor lies in the text and `current` is the token at it.
    pub open spec fn well_formed(&self) -> bool {
        &&& self.chars@ == self.input@
        &&& self.position <= self.chars.len()
        &&& self.current@ == lexeme_at(self.chars@, self.position as int)
    }

    /// A lexer at the start of `input`.
    pub fn new(input: &'a str) -> (lexer: Lexer<'a>)
        ensures
            lexer.well_formed(),
            lexer.input == input,
            lexer.position == 0,
    {
        let chars = chars_of(input);
        let current = next_token(&chars, 0);
        Lexer { input, chars, position: 0, current }
    }

    /// The characters of the token at the cursor.
    pub fn slice(&self) -> (text: &str)
        requires
            self.well_formed(),
        ensures
            text@ == spelling(self.chars@, self.current@),
    {
        proof {
            lemma_lexeme_at(self.chars@, self.position as int);
        }
        self.input.substring_char(self.current.start, self.current.end)
    }

    /// The kind of the token at the cursor.
    pub fn current(&self) -> (token: Token)
        ensures
            token == self.current.token,
    {
        self.current.token
    }

    /// Whether the token at the cursor is of kind `token`.
    pub fn check(&self, token: Token) -> (same: bool)
        ensures
            same == (self.current.token == token),
    {
        self.current.token == token
    }

    /// Moves the cursor past the token at it and returns that token. Fails
    /// where the token after it is an error token.
    pub fn bump(&mut self) -> (result: Result<Span, Error>)
        requires
            old(self).well_formed(),
        ensures
            final(self).well_formed(),
            final(self).input == old(self).input,
            final(self).chars == old(self).chars,
            final(self).position == old(self).current.end,
            match passed(old(self).chars@, old(self).position as int) {
                Ok(n) => {
                    &&& result == Ok::<Span, Error>(old(self).current)
                    &&& final(self).position == old(self).position + n
                },
                Err(kind) => result matches Err(e) && e.is_kind(kind),
            },
    {
        proof {
            lemma_lexeme_at(self.chars@, self.position as int);
        }
        let previous = self.current;
        self.position = previous.end;
        self.current = next_token(&self.chars, self.position);
        if self.current.token == Token::Error {
            let text = self.input.substring_char(self.current.start, self.current.end);
            return Err(Error::unexpected_input(text));
        }
        Ok(previous)
    }

    /// Passes the token at the cursor where it is of kind `token`, and says
    /// whether it did.
    pub fn bump_if(&mut self, token: Token) -> (result: Result<bool, Error>)
        requires
            old(self).well_formed(),
        ensures
            final(self).well_formed(),
            final(self).input == old(self).input,
            final(self).chars == old(self).chars,
            old(self).current.token != token ==> result == Ok::<bool, Error>(false) && *final(self)
                == *old(self),
            old(self).current.token == token ==> final(self).position == old(self).current.end
                && match passed(old(self).chars@, old(self).position as int) {
                Ok(n) => {
                    &&& result == Ok::<bool, Error>(true)
                    &&& final(self).position == old(self).position + n
                },
                Err(kind) => result matches Err(e) && e.is_kind(kind),
            },
    {
        if self.check(token) {
            match self.bump() {
                Ok(_) => Ok(true),
                Err(e) => Err(e),
            }
        } else {
            Ok(false)
        }
    }

    /// Passes the token at the cursor, which has to be of kind `token`.
    pub fn expect(&mut self, token: Token) -> (result: Result<(), Error>)
        requires
            old(self).well_formed(),
        ensures
            final(self).well_formed(),
            final(self).input == old(self).input,
            final(self).chars == old(self).chars,
            old(self).current.token != token ==> *final(self) == *old(self),
            old(self).current.token == token ==> final(self).position == old(self).current.end,
            match required(old(self).chars@, old(self).position as int, token) {
                Ok(n) => result is Ok && final(self).position == old(self).position + n,
                Err(kind) => result matches Err(e) && e.is_kind(kind),
            },
    {
        match self.bump_if(token) {
            Ok(true) => Ok(()),
            Ok(false) => {
                if self.current.token == Token::Eof {
                    Err(Error::expected_before_end(token.as_str()))
                } else {
                    let found = self.slice();
                    Err(Error::expected_input(token.as_str(), found))
                }
            },
            Err(e) => Err(e),
        }
    }
}

} // verus!
