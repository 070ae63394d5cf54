use spec_css::lexer::{tokenize, Tokenizer};
use spec_css::preprocess::preprocess;
use spec_css::tokens::{NumericValue, SourceLocation, Token};

fn tokens_of(input: &str) -> Vec<Token> {
    tokenize(input.as_bytes()).into_iter().map(|(t, _)| t).collect()
}

fn num(repr: &str, int_value: Option<i64>) -> NumericValue {
    NumericValue {
        representation: repr.as_bytes().to_vec(),
        int_value,
    }
}

#[test]
fn tokenize_simple() {
    let t = tokenize("a".as_bytes());
    assert!(t.len() == 1);
    assert!(
        t[0] == (
            Token::Ident(b"a".to_vec()),
            SourceLocation { line: 1, column: 1 }
        )
    );
}

#[test]
fn comment_hash_dimension_unicode_range() {
    let got = tokens_of("/* c */#id .x{w:1.5em;u:U+4??;}");
    let expected = vec![
        Token::IDHash(b"id".to_vec()),
        Token::WhiteSpace,
        Token::Delim('.'),
        Token::Ident(b"x".to_vec()),
        Token::LeftCurlyBracket,
        Token::Ident(b"w".to_vec()),
        Token::Colon,
        Token::Dimension(num("1.5", None), b"em".to_vec()),
        Token::Semicolon,
        Token::Ident(b"u".to_vec()),
        Token::Colon,
        Token::UnicodeRange(0x400, 0x4FF),
        Token::Semicolon,
        Token::RightCurlyBracket,
    ];
    assert_eq!(got, expected);
}

#[test]
fn bad_string_recovery() {
    let got = tokenize("\"abc\ndef\"".as_bytes());
    let expected = vec![
        (Token::BadString, SourceLocation { line: 1, column: 1 }),
        (Token::WhiteSpace, SourceLocation { line: 1, column: 5 }),
        (
            Token::Ident(b"def".to_vec()),
            SourceLocation { line: 2, column: 1 },
        ),
        (Token::BadString, SourceLocation { line: 2, column: 4 }),
    ];
    assert_eq!(got, expected);
}

#[test]
fn url_quoted_with_whitespace() {
    let got = tokens_of("url( \"x\" )");
    assert_eq!(got, vec![Token::URL(b"x".to_vec())]);
}

#[test]
fn url_shapes() {
    assert_eq!(tokens_of("url(foo)"), vec![Token::URL(b"foo".to_vec())]);
    assert_eq!(tokens_of("url()"), vec![Token::URL(Vec::new())]);
    assert_eq!(tokens_of("url(  )"), vec![Token::URL(Vec::new())]);
    assert_eq!(tokens_of("url(x\"y)z"), vec![
        Token::BadURL,
        Token::Ident(b"z".to_vec()),
    ]);
    assert_eq!(tokens_of("url(a b)"), vec![Token::BadURL]);
    assert_eq!(tokens_of("URL(up)"), vec![Token::URL(b"up".to_vec())]);
    assert_eq!(tokens_of("urls(x)"), vec![
        Token::Function(b"urls".to_vec()),
        Token::Ident(b"x".to_vec()),
        Token::RightParen,
    ]);
}

#[test]
fn string_shapes() {
    assert_eq!(tokens_of("\"ab\""), vec![Token::String(b"ab".to_vec())]);
    assert_eq!(tokens_of("'ab'"), vec![Token::String(b"ab".to_vec())]);
    // an escaped newline is a continuation and contributes nothing
    assert_eq!(tokens_of("\"a\\\nb\""), vec![Token::String(b"ab".to_vec())]);
    // an unterminated string at the end of the input is bad
    assert_eq!(tokens_of("\"ab"), vec![Token::BadString]);
    // an escaped quote stays in the string
    assert_eq!(tokens_of("\"a\\\"b\""), vec![Token::String(b"a\"b".to_vec())]);
}

#[test]
fn escape_shapes() {
    // hex escape with a space terminator folds into the name
    assert_eq!(tokens_of("\\41 x"), vec![Token::Ident(b"Ax".to_vec())]);
    // a hex escape of zero becomes U+FFFD
    assert_eq!(
        tokens_of("\\0"),
        vec![Token::Ident(vec![0xEF, 0xBF, 0xBD])]
    );
    // a non-hex escaped code point stands for itself
    assert_eq!(tokens_of("\\@"), vec![Token::Ident(b"@".to_vec())]);
    // a multi-byte escape contributes its UTF-8 bytes
    assert_eq!(tokens_of("\\e9"), vec![Token::Ident(vec![0xC3, 0xA9])]);
    // values beyond U+10FFFF become U+FFFD
    assert_eq!(
        tokens_of("\\ffffff"),
        vec![Token::Ident(vec![0xEF, 0xBF, 0xBD])]
    );
}

#[test]
fn numeric_shapes() {
    assert_eq!(tokens_of("12"), vec![Token::Number(num("12", Some(12)))]);
    assert_eq!(tokens_of("1.5"), vec![Token::Number(num("1.5", None))]);
    assert_eq!(tokens_of("-3"), vec![Token::Number(num("-3", Some(-3)))]);
    assert_eq!(tokens_of("+4"), vec![Token::Number(num("+4", Some(4)))]);
    assert_eq!(tokens_of("2e3"), vec![Token::Number(num("2e3", None))]);
    assert_eq!(
        tokens_of("1.5e-2"),
        vec![Token::Number(num("1.5e-2", None))]
    );
    assert_eq!(
        tokens_of("50%"),
        vec![Token::Percentage(num("50", Some(50)))]
    );
    assert_eq!(
        tokens_of("10px"),
        vec![Token::Dimension(num("10", Some(10)), b"px".to_vec())]
    );
    assert_eq!(
        tokens_of("+x"),
        vec![Token::Delim('+'), Token::Ident(b"x".to_vec())]
    );
}

#[test]
fn numeric_saturation() {
    let big = "99999999999999999999999";
    assert_eq!(
        tokens_of(big),
        vec![Token::Number(num(big, Some(i64::MAX)))]
    );
    let small = "-99999999999999999999999";
    assert_eq!(
        tokens_of(small),
        vec![Token::Number(num(small, Some(i64::MIN)))]
    );
}

#[test]
fn operators_and_punctuation() {
    let got = tokens_of("~=|=^=$=*=||<!--
-->:;,[](){}");
    let expected = vec![
        Token::IncludeMatch,
        Token::DashMatch,
        Token::PrefixMatch,
        Token::SuffixMatch,
        Token::SubstringMatch,
        Token::Column,
        Token::CDO,
        Token::WhiteSpace,
        Token::CDC,
        Token::Colon,
        Token::Semicolon,
        Token::Comma,
        Token::LeftBracket,
        Token::RightBracket,
        Token::LeftParen,
        Token::RightParen,
        Token::LeftCurlyBracket,
        Token::RightCurlyBracket,
    ];
    assert_eq!(got, expected);
}

#[test]
fn hash_and_at_shapes() {
    assert_eq!(tokens_of("#id"), vec![Token::IDHash(b"id".to_vec())]);
    assert_eq!(tokens_of("#0a"), vec![Token::Hash(b"0a".to_vec())]);
    assert_eq!(
        tokens_of("# "),
        vec![Token::Delim('#'), Token::WhiteSpace]
    );
    assert_eq!(
        tokens_of("@media"),
        vec![Token::AtKeyword(b"media".to_vec())]
    );
    assert_eq!(
        tokens_of("@ "),
        vec![Token::Delim('@'), Token::WhiteSpace]
    );
    assert_eq!(
        tokens_of("-x"),
        vec![Token::Ident(b"-x".to_vec())]
    );
}

#[test]
fn unicode_range_shapes() {
    assert_eq!(tokens_of("u+1234"), vec![Token::UnicodeRange(0x1234, 0x1234)]);
    assert_eq!(tokens_of("U+12-14"), vec![Token::UnicodeRange(0x12, 0x14)]);
    assert_eq!(tokens_of("u+?"), vec![Token::UnicodeRange(0x0, 0xF)]);
    assert_eq!(tokens_of("u+a"), vec![Token::UnicodeRange(0xA, 0xA)]);
}

#[test]
fn preprocess_normalizes() {
    let out = preprocess(b"a\r\nb\rc\x0cd\x00e");
    assert_eq!(out, b"a\nb\nc\nd\xEF\xBF\xBDe".to_vec());
}

#[test]
fn preprocess_idempotent() {
    let inputs: Vec<&[u8]> = vec![b"", b"a\r\nb", b"\r\r\n\x0c\x00", b"plain text"];
    for input in inputs {
        let once = preprocess(input);
        let twice = preprocess(&once);
        assert_eq!(once, twice);
    }
}

#[test]
fn tokenize_deterministic() {
    let css = "a{b:url( 'x' ) 1.5em}/*c*/\n#d";
    assert_eq!(tokenize(css.as_bytes()), tokenize(css.as_bytes()));
}

#[test]
fn progress_and_location_validity() {
    let pre = preprocess(b"a b\n c /*x\ny*/ d \"s\ne\"");
    let mut t = Tokenizer::new(&pre);
    loop {
        let before = t.position;
        match t.next() {
            Some((_, loc)) => {
                assert!(t.position > before);
                assert!(loc.line >= 1);
                assert!(loc.column >= 1);
            }
            None => break,
        }
    }
    assert!(t.position == pre.len());
}

#[test]
fn locations_count_bytes_from_line_start() {
    let got = tokenize("ab\ncd e".as_bytes());
    let expected = vec![
        (
            Token::Ident(b"ab".to_vec()),
            SourceLocation { line: 1, column: 1 },
        ),
        (Token::WhiteSpace, SourceLocation { line: 1, column: 3 }),
        (
            Token::Ident(b"cd".to_vec()),
            SourceLocation { line: 2, column: 1 },
        ),
        (Token::WhiteSpace, SourceLocation { line: 2, column: 3 }),
        (
            Token::Ident(b"e".to_vec()),
            SourceLocation { line: 2, column: 4 },
        ),
    ];
    assert_eq!(got, expected);
}
