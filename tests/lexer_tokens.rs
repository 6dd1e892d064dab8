use tcp_rust::lexer::{Lexer, TokenKind, TokenKindSet};

fn kinds(src: &str) -> Vec<(TokenKind, String)> {
    let mut lexer = Lexer::from_iter(src.chars().collect());
    let mut r = Vec::new();
    while let Some(t) = lexer.next_token() {
        r.push((t.kind, t.text));
    }
    r
}

#[test]
fn token_kind_set_bits() {
    let e = TokenKindSet::empty();
    assert!(!e.contains(TokenKind::Sym));
    let s = TokenKindSet::empty().set(TokenKind::Rule).set(TokenKind::Quit);
    assert!(s.contains(TokenKind::Rule));
    assert!(s.contains(TokenKind::Quit));
    assert!(!s.contains(TokenKind::Shape));
    assert_eq!(s.0, 0b1_0001);
    let u = s.unset(TokenKind::Rule);
    assert!(!u.contains(TokenKind::Rule));
    assert!(u.contains(TokenKind::Quit));
    assert_eq!(TokenKindSet::single(TokenKind::End).0, 1 << 12);
}

#[test]
fn lexes_a_rule() {
    let toks = kinds("rule swap swap(pair(A, b)) = pair(b, A)");
    let expect = vec![
        (TokenKind::Rule, "rule"),
        (TokenKind::Sym, "swap"),
        (TokenKind::Sym, "swap"),
        (TokenKind::OpenParen, "("),
        (TokenKind::Sym, "pair"),
        (TokenKind::OpenParen, "("),
        (TokenKind::Sym, "A"),
        (TokenKind::Comma, ","),
        (TokenKind::Sym, "b"),
        (TokenKind::CloseParen, ")"),
        (TokenKind::CloseParen, ")"),
        (TokenKind::Equals, "="),
        (TokenKind::Sym, "pair"),
        (TokenKind::OpenParen, "("),
        (TokenKind::Sym, "b"),
        (TokenKind::Comma, ","),
        (TokenKind::Sym, "A"),
        (TokenKind::CloseParen, ")"),
        (TokenKind::End, ""),
    ];
    let got: Vec<(TokenKind, &str)> = toks.iter().map(|(k, t)| (*k, t.as_str())).collect();
    assert_eq!(got, expect);
}

#[test]
fn skips_comments_and_tracks_locations() {
    let mut lexer = Lexer::from_iter("# comment\n\n  shape f\n".chars().collect());
    lexer.set_file_path("input.noq");
    let t = lexer.next_token().unwrap();
    assert_eq!(t.kind, TokenKind::Shape);
    assert_eq!((t.loc.row, t.loc.col), (3, 3));
    assert_eq!(t.loc.file_path.as_deref(), Some("input.noq"));
    let t = lexer.next_token().unwrap();
    assert_eq!((t.kind, t.text.as_str()), (TokenKind::Sym, "f"));
    let t = lexer.next_token().unwrap();
    assert_eq!(t.kind, TokenKind::End);
    assert!(lexer.next_token().is_none());
}

#[test]
fn invalid_character_ends_lexing() {
    let toks = kinds("apply ! done");
    assert_eq!(toks.len(), 2);
    assert_eq!(toks[0].0, TokenKind::Apply);
    assert_eq!((toks[1].0, toks[1].1.as_str()), (TokenKind::Invalid, "!"));
}

#[test]
fn kind_sets_read_as_lists() {
    assert_eq!(TokenKindSet::empty().describe(), "nothing");
    assert_eq!(TokenKindSet::single(TokenKind::Sym).describe(), "symbol");
    let s = TokenKindSet::empty().set(TokenKind::CloseParen).set(TokenKind::Sym).set(TokenKind::Rule);
    assert_eq!(s.describe(), "`rule`, symbol, or close paren");
    assert_eq!(TokenKind::End.describe(), "end of token");
}

#[test]
fn locations_read_as_text() {
    let with_file = tcp_rust::lexer::Loc { file_path: Some("a.noq".to_string()), row: 12, col: 3 };
    assert_eq!(with_file.describe(), "a.noq:12:3");
    let bare = tcp_rust::lexer::Loc { file_path: None, row: 1, col: 40 };
    assert_eq!(bare.describe(), "1:40");
}

#[test]
fn tokens_carry_their_rows_and_columns() {
    let mut lexer = Lexer::from_iter("rule swap(X)".chars().collect());
    let expect = [
        (TokenKind::Rule, "rule", 1, 1),
        (TokenKind::Sym, "swap", 1, 6),
        (TokenKind::OpenParen, "(", 1, 10),
        (TokenKind::Sym, "X", 1, 11),
        (TokenKind::CloseParen, ")", 1, 12),
        (TokenKind::End, "", 1, 13),
    ];
    for (kind, text, row, col) in expect.iter() {
        let t = lexer.next_token().unwrap();
        assert_eq!((t.kind, t.text.as_str(), t.loc.row, t.loc.col), (*kind, *text, *row, *col));
    }
    assert!(lexer.next_token().is_none());
    assert!(lexer.next_token().is_none());
}
