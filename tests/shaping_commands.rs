use tcp_rust::lexer::{Lexer, Token, TokenKind};
use tcp_rust::rewrite::{Error, Expr};
use tcp_rust::shaping::Context;

fn lex(src: &str) -> Vec<Token> {
    let mut lexer = Lexer::from_iter(src.chars().collect());
    let mut r = Vec::new();
    while let Some(t) = lexer.next_token() {
        r.push(t);
    }
    r
}

fn run(ctx: &mut Context, src: &str) -> Result<String, Error> {
    let tokens = lex(src);
    let mut pos = 0usize;
    ctx.process_command(&tokens, &mut pos)
}

#[test]
fn rule_shape_apply_undo_done() {
    let mut ctx = Context::new();
    assert_eq!(run(&mut ctx, "rule swap swap(pair(A, B)) = pair(B, A)").unwrap(), "rule swap(pair(A,B)) = pair(B,A)");
    assert_eq!(run(&mut ctx, "shape swap(pair(f(a), g(b)))").unwrap(), "shaping swap(pair(f(a),g(b)))");
    assert_eq!(run(&mut ctx, "apply swap").unwrap(), " => pair(g(b),f(a))");
    assert_eq!(ctx.shaping_history.len(), 1);
    assert_eq!(run(&mut ctx, "apply rule pair(X, Y) = X").unwrap(), " => g(b)");
    assert_eq!(run(&mut ctx, "undo").unwrap(), " => pair(g(b),f(a))");
    assert_eq!(run(&mut ctx, "done").unwrap(), "");
    assert!(ctx.current_expr.is_none());
    assert!(ctx.shaping_history.is_empty());
    assert_eq!(run(&mut ctx, "quit").unwrap(), "");
    assert!(ctx.quit);
}

#[test]
fn command_errors() {
    let mut ctx = Context::new();
    assert!(matches!(run(&mut ctx, "apply swap"), Err(Error::NoShapingInPlace(_))));
    assert!(matches!(run(&mut ctx, "done"), Err(Error::NoShapingInPlace(_))));
    assert!(matches!(run(&mut ctx, "undo"), Err(Error::NoShapingInPlace(_))));
    run(&mut ctx, "rule id f(X) = X").unwrap();
    assert!(matches!(run(&mut ctx, "rule id g(X) = X"), Err(Error::RuleAlreadyExists(ref n, _, _)) if n == "id"));
    run(&mut ctx, "shape f(a)").unwrap();
    assert!(matches!(run(&mut ctx, "shape f(b)"), Err(Error::AlreadyShaping(_))));
    assert!(matches!(run(&mut ctx, "undo"), Err(Error::NoHistory(_))));
    assert!(matches!(run(&mut ctx, "apply nope"), Err(Error::RuleDoesNotExist(ref n, _)) if n == "nope"));
    match run(&mut ctx, "f(a)") {
        Err(Error::UnexpectedToken(set, tok)) => {
            assert!(set.contains(TokenKind::Rule) && set.contains(TokenKind::Undo));
            assert!(!set.contains(TokenKind::Sym));
            assert_eq!(tok.kind, TokenKind::Sym);
        }
        _ => panic!("expected an unexpected-token error"),
    }
    match run(&mut ctx, "rule r f(X) X") {
        Err(Error::UnexpectedToken(set, tok)) => {
            assert!(set.contains(TokenKind::Equals));
            assert_eq!(tok.text, "X");
        }
        _ => panic!("expected an unexpected-token error"),
    }
}

#[test]
fn parse_reports_missing_close_paren() {
    let tokens = lex("f(a b)");
    let mut pos = 0usize;
    match Expr::parse_peekable(&tokens, &mut pos) {
        Err(Error::UnexpectedToken(set, tok)) => {
            assert!(set.contains(TokenKind::CloseParen));
            assert_eq!(tok.text, "b");
        }
        _ => panic!("expected an unexpected-token error"),
    }
}
