use tcp_rust::lexer::Loc;
use tcp_rust::rewrite::{expr_eq, pattern_match, subsitute_bindings, Expr, Rule};

fn sym(n: &str) -> Expr {
    Expr::Sym(n.to_string())
}

fn var(n: &str) -> Expr {
    Expr::Var(n.to_string())
}

fn fun(n: &str, args: Vec<Expr>) -> Expr {
    Expr::Fun(Box::new(sym(n)), args)
}

#[test]
fn test_apply_all() {
    // swap(pair(a, b)) = pair(b, a), with a and b the rule's variables
    let swap = Rule {
        loc: Loc { file_path: None, row: 0, col: 0 },
        head: fun("swap", vec![fun("pair", vec![var("a"), var("b")])]),
        body: fun("pair", vec![var("b"), var("a")]),
    };
    let input = fun(
        "foo",
        vec![
            fun("swap", vec![fun("pair", vec![fun("f", vec![sym("a")]), fun("g", vec![sym("b")])])]),
            fun("swap", vec![fun("pair", vec![fun("m", vec![sym("c")]), fun("n", vec![sym("d")])])]),
        ],
    );
    let out = fun(
        "foo",
        vec![
            fun("pair", vec![fun("g", vec![sym("b")]), fun("f", vec![sym("a")])]),
            fun("pair", vec![fun("n", vec![sym("d")]), fun("m", vec![sym("c")])]),
        ],
    );
    assert!(expr_eq(&swap.apply_all(&input), &out));
}

#[test]
fn variable_must_match_consistently() {
    let pat = fun("eq", vec![var("X"), var("X")]);
    assert!(pattern_match(&pat, &fun("eq", vec![sym("a"), sym("a")])).is_some());
    assert!(pattern_match(&pat, &fun("eq", vec![sym("a"), sym("b")])).is_none());
    assert!(pattern_match(&pat, &fun("eq", vec![sym("a")])).is_none());
}

#[test]
fn substitution_replaces_bound_variables_only() {
    let b = pattern_match(&var("X"), &fun("f", vec![sym("y")])).unwrap();
    let r = subsitute_bindings(&b, &fun("g", vec![var("X"), var("Z"), sym("X")]));
    assert!(expr_eq(&r, &fun("g", vec![fun("f", vec![sym("y")]), var("Z"), sym("X")])));
}

#[test]
fn names_pick_variable_or_symbol() {
    assert!(expr_eq(&Expr::var_or_sym_from_name("Abc"), &var("Abc")));
    assert!(expr_eq(&Expr::var_or_sym_from_name("abc"), &sym("abc")));
}
