use roll_dice::error::Error;
use roll_dice::lex::{chars_of, kind_of, next_token, Lexer, Span, Token};

fn tokens(input: &str) -> Vec<(Token, String)> {
    let chars = chars_of(input);
    let mut at = 0;
    let mut all = Vec::new();
    loop {
        let span = next_token(&chars, at);
        all.push((span.token, chars[span.start..span.end].iter().collect()));
        if span.token == Token::Eof {
            return all;
        }
        at = span.end;
    }
}

fn t(token: Token, text: &str) -> (Token, String) {
    (token, text.to_string())
}

#[test]
fn symbols_and_numbers() {
    assert_eq!(
        tokens("3d6+2"),
        vec![
            t(Token::Number, "3"),
            t(Token::Dice, "d"),
            t(Token::Number, "6"),
            t(Token::Plus, "+"),
            t(Token::Number, "2"),
            t(Token::Eof, ""),
        ]
    );
    assert_eq!(
        tokens(" ( 12 - 3 ) * 4 / 5 "),
        vec![
            t(Token::ParenL, "("),
            t(Token::Number, "12"),
            t(Token::Minus, "-"),
            t(Token::Number, "3"),
            t(Token::ParenR, ")"),
            t(Token::Star, "*"),
            t(Token::Number, "4"),
            t(Token::Slash, "/"),
            t(Token::Number, "5"),
            t(Token::Eof, ""),
        ]
    );
}

#[test]
fn an_error_token_takes_all_that_fits_nothing_else() {
    assert_eq!(
        tokens("1 abc+x y"),
        vec![
            t(Token::Number, "1"),
            t(Token::Error, "abc"),
            t(Token::Plus, "+"),
            t(Token::Error, "x"),
            t(Token::Error, "y"),
            t(Token::Eof, ""),
        ]
    );
    assert_eq!(
        tokens("\u{e9}\u{4e16}D~.."),
        vec![t(Token::Error, "\u{e9}\u{4e16}D~.."), t(Token::Eof, "")]
    );
    assert_eq!(
        tokens("xd6"),
        vec![t(Token::Error, "x"), t(Token::Dice, "d"), t(Token::Number, "6"), t(Token::Eof, "")]
    );
}

#[test]
fn eof_stays_at_the_end() {
    let chars = chars_of("7  ");
    let seven = next_token(&chars, 0);
    assert_eq!(seven, Span { token: Token::Number, start: 0, end: 1 });
    let eof = next_token(&chars, seven.end);
    assert_eq!(eof, Span { token: Token::Eof, start: 3, end: 3 });
    assert_eq!(next_token(&chars, eof.end), eof);
    assert_eq!(next_token(&chars_of(""), 0), Span { token: Token::Eof, start: 0, end: 0 });
}

#[test]
fn positions_count_characters() {
    let chars = chars_of("\u{3000}\u{e9}\u{e9} 12");
    assert_eq!(next_token(&chars, 0), Span { token: Token::Error, start: 1, end: 3 });
    assert_eq!(next_token(&chars, 3), Span { token: Token::Number, start: 4, end: 6 });
}

#[test]
fn kinds_of_characters() {
    for c in [' ', '\t', '\n', '\r', '\u{b}', '\u{c}', '\u{85}', '\u{a0}', '\u{2000}', '\u{200a}'] {
        assert_eq!(kind_of(c), None);
    }
    for c in ['\u{8}', '\u{e}', '\u{1f}', '\u{200b}', '\u{feff}', 'D', 'x', '.', '~', '\u{0}'] {
        assert_eq!(kind_of(c), Some(Token::Error));
    }
    for c in '0'..='9' {
        assert_eq!(kind_of(c), Some(Token::Number));
    }
    assert_eq!(kind_of('\u{660}'), Some(Token::Error));
    assert_eq!(kind_of('+'), Some(Token::Plus));
    assert_eq!(kind_of('-'), Some(Token::Minus));
    assert_eq!(kind_of('*'), Some(Token::Star));
    assert_eq!(kind_of('/'), Some(Token::Slash));
    assert_eq!(kind_of('d'), Some(Token::Dice));
    assert_eq!(kind_of('('), Some(Token::ParenL));
    assert_eq!(kind_of(')'), Some(Token::ParenR));
}

#[test]
fn white_space_is_what_std_calls_so() {
    for code in 0..=0x10ffffu32 {
        if let Some(c) = char::from_u32(code) {
            assert_eq!(kind_of(c).is_none(), c.is_whitespace(), "{code:#x}");
        }
    }
}

#[test]
fn names_of_tokens() {
    let names = [
        (Token::Plus, "+"),
        (Token::Minus, "-"),
        (Token::Star, "*"),
        (Token::Slash, "/"),
        (Token::Dice, "d"),
        (Token::ParenL, "("),
        (Token::ParenR, ")"),
        (Token::Number, "number"),
        (Token::Error, "<error>"),
        (Token::Eof, "<eof>"),
    ];
    for (token, name) in names {
        assert_eq!(token.as_str(), name);
    }
}

#[test]
fn a_lexer_walks_the_tokens() {
    let mut lex = Lexer::new(" 12 + d");
    assert_eq!(lex.current(), Token::Number);
    assert_eq!(lex.slice(), "12");
    assert!(lex.check(Token::Number));
    assert_eq!(lex.bump(), Ok(Span { token: Token::Number, start: 1, end: 3 }));
    assert_eq!(lex.bump_if(Token::Minus), Ok(false));
    assert_eq!(lex.current(), Token::Plus);
    assert_eq!(lex.bump_if(Token::Plus), Ok(true));
    assert_eq!(lex.slice(), "d");
    assert_eq!(lex.expect(Token::ParenR), Err(Error::new("expected \")\", got \"d\"")));
    assert_eq!(lex.current(), Token::Dice);
    assert_eq!(lex.expect(Token::Dice), Ok(()));
    assert_eq!(lex.current(), Token::Eof);
    assert_eq!(lex.slice(), "");
    assert_eq!(lex.expect(Token::ParenR), Err(Error::new("expected \")\", got end of input")));
    assert_eq!(lex.position, 7);
}

#[test]
fn a_lexer_fails_before_an_error_token() {
    let mut lex = Lexer::new("1 $$ 2");
    assert_eq!(lex.bump(), Err(Error::new("unexpected input: \"$$\"")));
    let mut lex = Lexer::new("(?");
    assert_eq!(lex.bump_if(Token::ParenL), Err(Error::new("unexpected input: \"?\"")));
    let mut lex = Lexer::new(")\u{e9}t\u{e9}");
    assert_eq!(lex.expect(Token::ParenR), Err(Error::new("unexpected input: \"\u{e9}t\u{e9}\"")));
    let lex = Lexer::new("?1");
    assert_eq!(lex.current(), Token::Error);
    assert_eq!(lex.slice(), "?");
}
