use device_driver_generation::lexer::{chars_of, text_eq, tokenize, Delim, TokenKind};

fn kinds(text: &str) -> Vec<TokenKind> {
    tokenize(&chars_of(text)).unwrap().iter().map(|t| t.kind).collect()
}

#[test]
fn tokens_of_a_field() {
    assert_eq!(
        kinds("x: uint = 0..=3, y ..8"),
        vec![
            TokenKind::Ident,
            TokenKind::Punct(':'),
            TokenKind::Ident,
            TokenKind::Punct('='),
            TokenKind::Int(0),
            TokenKind::DotDotEq,
            TokenKind::Int(3),
            TokenKind::Punct(','),
            TokenKind::Ident,
            TokenKind::DotDot,
            TokenKind::Int(8),
        ]
    );
}

#[test]
fn integer_literal_forms() {
    assert_eq!(
        kinds("0x1F 0b101 0o17 1_000 42u8"),
        vec![
            TokenKind::Int(0x1F),
            TokenKind::Int(0b101),
            TokenKind::Int(0o17),
            TokenKind::Int(1000),
            TokenKind::Int(42),
        ]
    );
    assert_eq!(kinds("18446744073709551615"), vec![TokenKind::Int(u64::MAX)]);
    assert_eq!(
        tokenize(&chars_of("18446744073709551616")).unwrap_err().message,
        "number too large to fit in target type"
    );
}

#[test]
fn comments_and_doc_lines() {
    let text = "// plain\n/// doc line\n//// not doc\n/* block */ a";
    let toks = tokenize(&chars_of(text)).unwrap();
    assert_eq!(toks.len(), 2);
    assert_eq!(toks[0].kind, TokenKind::Doc);
    let chars = chars_of(text);
    let doc: String = chars[toks[0].text_start..toks[0].text_end].iter().collect();
    assert_eq!(doc, " doc line");
    assert_eq!(toks[1].kind, TokenKind::Ident);
}

#[test]
fn delimiters_are_matched() {
    let toks = tokenize(&chars_of("{ [ ( ) ] }")).unwrap();
    assert_eq!(toks[0].kind, TokenKind::Open(Delim::Brace));
    assert_eq!(toks[0].mate, 5);
    assert_eq!(toks[1].mate, 4);
    assert_eq!(toks[2].mate, 3);
    assert_eq!(tokenize(&chars_of("{ ]")).unwrap_err().message, "mismatched closing delimiter");
    assert_eq!(tokenize(&chars_of("{")).unwrap_err().message, "unclosed delimiter");
    assert_eq!(tokenize(&chars_of(")")).unwrap_err().message, "unexpected closing delimiter");
}

#[test]
fn strings_and_bad_characters() {
    let toks = tokenize(&chars_of("\"a \\\" b\"")).unwrap();
    assert_eq!(toks.len(), 1);
    assert_eq!(toks[0].kind, TokenKind::Str);
    assert_eq!(tokenize(&chars_of("\"open")).unwrap_err().message, "unterminated string literal");
    assert_eq!(tokenize(&chars_of("a ` b")).unwrap_err().message, "unexpected character");
}

#[test]
fn text_comparison() {
    assert!(text_eq("abc", "abc"));
    assert!(!text_eq("abc", "abd"));
    assert!(!text_eq("abc", "ab"));
}
