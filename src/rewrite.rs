//! Expressions of the term-rewriting language and the application of a
//! rule to every subterm.
use vstd::prelude::*;
use crate::lexer::{Loc, Token, TokenKind, TokenKindSet, kind_bits};
use vstd::string::spec_iter;
use vstd::std_specs::iter::IteratorSpec;

verus! {

/// An expression: a symbol, a pattern variable, or an application.
#[derive(Debug)]
pub enum Expr {
    Sym(String),
    Var(String),
    Fun(Box<Expr>, Vec<Expr>),
}

/// The mathematical value of an expression.
pub enum Term {
    Sym(Seq<char>),
    Var(Seq<char>),
    Fun(Box<Term>, Seq<Term>),
}

impl View for Expr {
    type V = Term;

    open spec fn view(&self) -> Term
        decreases self,
    {
        match self {
            Expr::Sym(s) => Term::Sym(s@),
            Expr::Var(s) => Term::Var(s@),
            Expr::Fun(h, args) => Term::Fun(
                Box::new((**h).view()),
                Seq::new(args@.len(), |i: int| if 0 <= i < args@.len() { args@[i].view() } else { Term::Sym(Seq::empty()) }),
            ),
        }
    }
}

/// Pattern variables bound to terms, first binding first.
pub type Bindings = Vec<(String, Expr)>;

/// The value of a list of bindings.
pub open spec fn bindings_view(b: Seq<(String, Expr)>) -> Seq<(Seq<char>, Term)> {
    b.map_values(|e: (String, Expr)| (e.0@, e.1@))
}

/// The term bound to `n`, if any.
pub open spec fn lookup(b: Seq<(Seq<char>, Term)>, n: Seq<char>) -> Option<Term>
    decreases b.len(),
{
    if b.len() == 0 {
        None
    } else if b[0].0 == n {
        Some(b[0].1)
    } else {
        lookup(b.skip(1), n)
    }
}

/// `t` with each bound variable replaced by its term.
pub open spec fn subst(b: Seq<(Seq<char>, Term)>, t: Term) -> Term
    decreases t,
{
    match t {
        Term::Sym(_) => t,
        Term::Var(n) => match lookup(b, n) {
            Some(v) => v,
            None => t,
        },
        Term::Fun(h, args) => Term::Fun(
            Box::new(subst(b, *h)),
            Seq::new(args.len(), |i: int| if 0 <= i < args.len() { subst(b, args[i]) } else { Term::Sym(Seq::empty()) }),
        ),
    }
}

/// Matches pattern `p` against `v`, extending the bindings `b`: symbols
/// match themselves, a variable binds to the value or must equal what it is
/// bound to, and an application matches an application with an equal head
/// and as many arguments, argument by argument.
pub open spec fn match_spec(p: Term, v: Term, b: Seq<(Seq<char>, Term)>) -> Option<Seq<(Seq<char>, Term)>>
    decreases p, 0nat,
{
    match (p, v) {
        (Term::Sym(a), Term::Sym(c)) => if a == c { Some(b) } else { None },
        (Term::Var(n), _) => match lookup(b, n) {
            Some(x) => if x == v { Some(b) } else { None },
            None => Some(b.push((n, v))),
        },
        (Term::Fun(h1, a1), Term::Fun(h2, a2)) => if *h1 == *h2 && a1.len() == a2.len() {
            match_args(a1, a2, 0, b)
        } else {
            None
        },
        _ => None,
    }
}

/// Matches the arguments from `i` on, in order.
pub open spec fn match_args(ps: Seq<Term>, vs: Seq<Term>, i: int, b: Seq<(Seq<char>, Term)>) -> Option<
    Seq<(Seq<char>, Term)>,
>
    decreases ps, ps.len() - i,
{
    if i < 0 || i >= ps.len() || i >= vs.len() {
        Some(b)
    } else {
        match match_spec(ps[i], vs[i], b) {
            Some(b1) => match_args(ps, vs, i + 1, b1),
            None => None,
        }
    }
}

/// A rewrite rule: a head pattern and the body that replaces a match.
#[derive(Debug)]
pub struct Rule {
    pub loc: Loc,
    pub head: Expr,
    pub body: Expr,
}

/// `t` with the rule `head = body` applied wherever the head matches,
/// outermost first; the result of a match is not rewritten further.
pub open spec fn apply_spec(head: Term, body: Term, t: Term) -> Term
    decreases t,
{
    match match_spec(head, t, Seq::empty()) {
        Some(b) => subst(b, body),
        None => match t {
            Term::Fun(h, args) => Term::Fun(
                Box::new(apply_spec(head, body, *h)),
                Seq::new(
                    args.len(),
                    |i: int| if 0 <= i < args.len() { apply_spec(head, body, args[i]) } else { Term::Sym(Seq::empty()) },
                ),
            ),
            _ => t,
        },
    }
}

/// Relies on char::is_uppercase: the Unicode `Uppercase` property.
#[verifier::external_body]
fn is_upper(c: char) -> (r: bool)
    ensures
        r == is_upper_spec(c),
        'A' <= c <= 'Z' ==> r,
        'a' <= c <= 'z' ==> !r,
{
    c.is_uppercase()
}

/// Unicode `Uppercase`.
pub uninterp spec fn is_upper_spec(c: char) -> bool;

impl Expr {
    /// A variable if `name` starts with an upper-case letter, else a symbol.
    pub fn var_or_sym_from_name(name: &str) -> (r: Expr)
        requires
            name@.len() > 0,
        ensures
            is_upper_spec(name@[0]) ==> r@ == Term::Var(name@),
            !is_upper_spec(name@[0]) ==> r@ == Term::Sym(name@),
    {
        let mut it = name.chars();
        let c = it.next();
        proof {
            broadcast use vstd::string::axiom_spec_iter, vstd::string::next_postcondition;

            assert(spec_iter(name).remaining() == name@);
        }
        let upper = match c {
            Some(c) => is_upper(c),
            None => false,
        };
        if upper {
            Expr::Var(name.to_owned())
        } else {
            Expr::Sym(name.to_owned())
        }
    }
}

/// A copy of an expression.
pub fn clone_expr(e: &Expr) -> (r: Expr)
    ensures
        r@ == e@,
    decreases e,
{
    match e {
        Expr::Sym(s) => Expr::Sym(s.clone()),
        Expr::Var(s) => Expr::Var(s.clone()),
        Expr::Fun(h, args) => {
            let h2 = clone_expr(h);
            let mut a2: Vec<Expr> = Vec::new();
            let mut i: usize = 0;
            while i < args.len()
                invariant
                    i <= args@.len(),
                    *e is Fun,
                    (*e)->Fun_1 == *args,
                    a2@.len() == i,
                    forall|j: int| 0 <= j < i ==> (#[trigger] a2@[j])@ == args@[j]@,
                decreases args@.len() - i,
            {
                proof {
                    lemma_arg_decreases(*e, i as int);
                }
                a2.push(clone_expr(&args[i]));
                i = i + 1;
            }
            let r = Expr::Fun(Box::new(h2), a2);
            assert(r@ == e@) by {
                let ta = r@->Fun_1;
                let tb = e@->Fun_1;
                assert(ta =~= tb);
            }
            r
        },
    }
}

/// Whether two expressions are the same term.
pub fn expr_eq(a: &Expr, b: &Expr) -> (r: bool)
    ensures
        r == (a@ == b@),
    decreases a,
{
    match (a, b) {
        (Expr::Sym(x), Expr::Sym(y)) => {
            let r = x.eq(y);
            assert(r == (x@ == y@));
            r
        },
        (Expr::Var(x), Expr::Var(y)) => {
            let r = x.eq(y);
            assert(r == (x@ == y@));
            r
        },
        (Expr::Fun(h1, a1), Expr::Fun(h2, a2)) => {
            if !expr_eq(h1, h2) {
                assert(a@->Fun_0 != b@->Fun_0);
                return false;
            }
            if a1.len() != a2.len() {
                assert(a@->Fun_1.len() != b@->Fun_1.len());
                return false;
            }
            let ghost ta = a@->Fun_1;
            let ghost tb = b@->Fun_1;
            assert(forall|j: int| 0 <= j < a1@.len() ==> ta[j] == (#[trigger] a1@[j])@);
            assert(forall|j: int| 0 <= j < a2@.len() ==> tb[j] == (#[trigger] a2@[j])@);
            let mut i: usize = 0;
            while i < a1.len()
                invariant
                    i <= a1@.len(),
                    *a is Fun,
                    (*a)->Fun_1 == *a1,
                    *b is Fun,
                    (*b)->Fun_1 == *a2,
                    a@->Fun_1 == ta,
                    b@->Fun_1 == tb,
                    ta.len() == a1@.len(),
                    tb.len() == a2@.len(),
                    forall|j: int| 0 <= j < a1@.len() ==> ta[j] == (#[trigger] a1@[j])@,
                    forall|j: int| 0 <= j < a2@.len() ==> tb[j] == (#[trigger] a2@[j])@,
                    a1@.len() == a2@.len(),
                    forall|j: int| 0 <= j < i ==> (#[trigger] a1@[j])@ == a2@[j]@,
                decreases a1@.len() - i,
            {
                proof {
                    lemma_arg_decreases(*a, i as int);
                }
                if !expr_eq(&a1[i], &a2[i]) {
                    assert(ta[i as int] != tb[i as int]);
                    return false;
                }
                i = i + 1;
            }
            assert(ta =~= tb);
            true
        },
        _ => {
            assert(a@ != b@) by {
                match (a, b) {
                    (Expr::Sym(_), Expr::Sym(_)) => {},
                    (Expr::Var(_), Expr::Var(_)) => {},
                    (Expr::Fun(_, _), Expr::Fun(_, _)) => {},
                    _ => {},
                }
            }
            false
        },
    }
}

proof fn lemma_arg_decreases(e: Expr, i: int)
    requires
        e is Fun,
        0 <= i < e->Fun_1@.len(),
    ensures
        decreases_to!(e => e->Fun_1@[i]),
{
    assert(decreases_to!(e => e->Fun_1));
    assert(decreases_to!(e->Fun_1 => e->Fun_1@));
    assert(decreases_to!(e->Fun_1@ => e->Fun_1@[i]));
}

/// Index of the first binding of `name`.
fn find_binding(bindings: &Bindings, name: &String) -> (r: Option<usize>)
    ensures
        match r {
            Some(i) => i < bindings@.len() && lookup(bindings_view(bindings@), name@) == Some(
                bindings@[i as int].1@,
            ),
            None => lookup(bindings_view(bindings@), name@) is None,
        },
{
    let ghost bv = bindings_view(bindings@);
    let mut i: usize = 0;
    assert(bv.skip(0) =~= bv);
    while i < bindings.len()
        invariant
            i <= bindings@.len(),
            bv == bindings_view(bindings@),
            lookup(bv, name@) == lookup(bv.skip(i as int), name@),
        decreases bindings@.len() - i,
    {
        assert(bv.skip(i as int)[0] == bv[i as int]);
        if bindings[i].0.eq(name) {
            return Some(i);
        }
        assert(bv.skip(i as int).skip(1) =~= bv.skip(i + 1));
        i = i + 1;
    }
    None
}

/// `expr` with each bound variable replaced by a copy of its term.
pub fn subsitute_bindings(bindings: &Bindings, expr: &Expr) -> (r: Expr)
    ensures
        r@ == subst(bindings_view(bindings@), expr@),
    decreases expr,
{
    match expr {
        Expr::Sym(_) => clone_expr(expr),
        Expr::Var(name) => match find_binding(bindings, name) {
            Some(i) => clone_expr(&bindings[i].1),
            None => clone_expr(expr),
        },
        Expr::Fun(head, args) => {
            let new_head = subsitute_bindings(bindings, head);
            let mut new_args: Vec<Expr> = Vec::new();
            let mut i: usize = 0;
            while i < args.len()
                invariant
                    i <= args@.len(),
                    *expr is Fun,
                    (*expr)->Fun_1 == *args,
                    new_args@.len() == i,
                    forall|j: int|
                        0 <= j < i ==> (#[trigger] new_args@[j])@ == subst(bindings_view(bindings@), args@[j]@),
                decreases args@.len() - i,
            {
                proof {
                    lemma_arg_decreases(*expr, i as int);
                }
                new_args.push(subsitute_bindings(bindings, &args[i]));
                i = i + 1;
            }
            let r = Expr::Fun(Box::new(new_head), new_args);
            assert(r@->Fun_1 =~= subst(bindings_view(bindings@), expr@)->Fun_1);
            r
        },
    }
}

/// Matches `pattern` against `value`, extending `bindings`; on success the
/// bindings are those of `match_spec`.
fn pattern_match_inner(pattern: &Expr, value: &Expr, bindings: &mut Bindings) -> (r: bool)
    ensures
        r == match_spec(pattern@, value@, bindings_view(old(bindings)@)) is Some,
        r ==> bindings_view(final(bindings)@) == match_spec(pattern@, value@, bindings_view(old(bindings)@))->Some_0,
    decreases pattern,
{
    let ghost b0 = bindings_view(bindings@);
    match (pattern, value) {
        (Expr::Sym(n1), Expr::Sym(n2)) => n1.eq(n2),
        (Expr::Var(name), _) => match find_binding(bindings, name) {
            Some(i) => expr_eq(&bindings[i].1, value),
            None => {
                bindings.push((name.clone(), clone_expr(value)));
                assert(bindings_view(bindings@) =~= b0.push((name@, value@)));
                true
            },
        },
        (Expr::Fun(h1, a1), Expr::Fun(h2, a2)) => {
            if !expr_eq(h1, h2) || a1.len() != a2.len() {
                assert(pattern@->Fun_1.len() == a1@.len());
                assert(value@->Fun_1.len() == a2@.len());
                return false;
            }
            let ghost ps = pattern@->Fun_1;
            let ghost vs = value@->Fun_1;
            assert(*pattern@->Fun_0 == *value@->Fun_0);
            assert(match_spec(pattern@, value@, b0) == match_args(ps, vs, 0, b0));
            let mut i: usize = 0;
            while i < a1.len()
                invariant
                    i <= a1@.len(),
                    a1@.len() == a2@.len(),
                    *pattern is Fun,
                    (*pattern)->Fun_1 == *a1,
                    ps == pattern@->Fun_1,
                    vs == value@->Fun_1,
                    *value is Fun,
                    (*value)->Fun_1 == *a2,
                    ps.len() == a1@.len(),
                    vs.len() == a2@.len(),
                    forall|j: int| 0 <= j < a1@.len() ==> ps[j] == (#[trigger] a1@[j])@,
                    forall|j: int| 0 <= j < a2@.len() ==> vs[j] == (#[trigger] a2@[j])@,
                    b0 == bindings_view(old(bindings)@),
                    match_args(ps, vs, 0, b0) == match_args(ps, vs, i as int, bindings_view(bindings@)),
                decreases a1@.len() - i,
            {
                proof {
                    lemma_arg_decreases(*pattern, i as int);
                }
                let ghost bcur = bindings_view(bindings@);
                let ok = pattern_match_inner(&a1[i], &a2[i], bindings);
                if !ok {
                    assert(match_spec(ps[i as int], vs[i as int], bcur) is None);
                    assert(match_args(ps, vs, i as int, bcur) is None);
                    return false;
                }
                i = i + 1;
            }
            true
        },
        _ => {
            assert(match_spec(pattern@, value@, b0) is None) by {
                match (pattern, value) {
                    (Expr::Sym(_), Expr::Sym(_)) => {},
                    (Expr::Var(_), _) => {},
                    (Expr::Fun(_, _), Expr::Fun(_, _)) => {},
                    _ => {},
                }
            }
            false
        },
    }
}

/// The bindings under which `pattern` matches `value`, if it does.
pub fn pattern_match(pattern: &Expr, value: &Expr) -> (r: Option<Bindings>)
    ensures
        r is Some <==> match_spec(pattern@, value@, Seq::empty()) is Some,
        r matches Some(b) ==> bindings_view(b@) == match_spec(pattern@, value@, Seq::empty())->Some_0,
{
    let mut bindings: Bindings = Vec::new();
    assert(bindings_view(bindings@) =~= Seq::empty());
    if pattern_match_inner(pattern, value, &mut bindings) {
        Some(bindings)
    } else {
        None
    }
}

impl Rule {
    /// `expr` with this rule applied wherever its head matches, outermost
    /// first.
    pub fn apply_all(&self, expr: &Expr) -> (r: Expr)
        ensures
            r@ == apply_spec(self.head@, self.body@, expr@),
        decreases expr,
    {
        match pattern_match(&self.head, expr) {
            Some(bindings) => subsitute_bindings(&bindings, &self.body),
            None => match expr {
                Expr::Sym(_) | Expr::Var(_) => clone_expr(expr),
                Expr::Fun(head, args) => {
                    let new_head = self.apply_all(head);
                    let mut new_args: Vec<Expr> = Vec::new();
                    let mut i: usize = 0;
                    while i < args.len()
                        invariant
                            i <= args@.len(),
                            *expr is Fun,
                            (*expr)->Fun_1 == *args,
                            new_args@.len() == i,
                            forall|j: int|
                                0 <= j < i ==> (#[trigger] new_args@[j])@ == apply_spec(
                                    self.head@,
                                    self.body@,
                                    args@[j]@,
                                ),
                        decreases args@.len() - i,
                    {
                        proof {
                            lemma_arg_decreases(*expr, i as int);
                        }
                        new_args.push(self.apply_all(&args[i]));
                        i = i + 1;
                    }
                    let r = Expr::Fun(Box::new(new_head), new_args);
                    assert(r@->Fun_1 =~= apply_spec(self.head@, self.body@, expr@)->Fun_1);
                    r
                },
            },
        }
    }
}

/// Errors of the rewriting language.
#[derive(Debug)]
pub enum Error {
    UnexpectedToken(TokenKindSet, Token),
    RuleAlreadyExists(String, Loc, Loc),
    RuleDoesNotExist(String, Loc),
    AlreadyShaping(Loc),
    NoShapingInPlace(Loc),
    NoHistory(Loc),
}

/// Kind and text of each token.
pub open spec fn token_views(ts: Seq<Token>) -> Seq<(TokenKind, Seq<char>)> {
    ts.map_values(|t: Token| (t.kind, t.text@))
}

/// The term a name stands for: a variable if it starts upper-case.
pub open spec fn name_term(n: Seq<char>) -> Term {
    if n.len() > 0 && is_upper_spec(n[0]) { Term::Var(n) } else { Term::Sym(n) }
}

/// Parses an expression at `pos`: a name, or a name applied to a
/// parenthesised, comma-separated list of expressions. The result is the
/// term and the position after it, or the expected kinds (as bits) and
/// the position of the token that did not fit.
pub open spec fn parse_expr(ts: Seq<(TokenKind, Seq<char>)>, pos: int) -> Result<(Term, int), (u64, int)>
    decreases ts.len() - pos, 1int,
{
    if pos < 0 || pos >= ts.len() {
        Err((kind_bits(TokenKind::Sym), pos))
    } else if ts[pos].0 != TokenKind::Sym {
        Err((kind_bits(TokenKind::Sym), pos))
    } else if pos + 1 < ts.len() && ts[pos + 1].0 == TokenKind::OpenParen {
        let head = Box::new(name_term(ts[pos].1));
        if pos + 2 < ts.len() && ts[pos + 2].0 == TokenKind::CloseParen {
            Ok((Term::Fun(head, Seq::empty()), pos + 3))
        } else {
            match parse_args(ts, pos + 2, Seq::empty()) {
                Ok((args, p)) => Ok((Term::Fun(head, args), p)),
                Err(e) => Err(e),
            }
        }
    } else {
        Ok((name_term(ts[pos].1), pos + 1))
    }
}

/// Parses the arguments from `pos` on, after those in `acc`, through the
/// closing parenthesis.
pub open spec fn parse_args(ts: Seq<(TokenKind, Seq<char>)>, pos: int, acc: Seq<Term>) -> Result<
    (Seq<Term>, int),
    (u64, int),
>
    decreases ts.len() - pos, 2int,
{
    if pos < 0 || pos >= ts.len() {
        Err((kind_bits(TokenKind::Sym), pos))
    } else {
        match parse_expr(ts, pos) {
            Err(e) => Err(e),
            Ok((a, p)) => if p <= pos || p >= ts.len() {
                Err((kind_bits(TokenKind::CloseParen), p))
            } else if ts[p].0 == TokenKind::Comma {
                parse_args(ts, p + 1, acc.push(a))
            } else if ts[p].0 == TokenKind::CloseParen {
                Ok((acc.push(a), p + 1))
            } else {
                Err((kind_bits(TokenKind::CloseParen), p))
            },
        }
    }
}

/// Token lists the parser works on: every symbol has a name and the list
/// ends with the end token.
pub open spec fn tokens_ok(ts: Seq<(TokenKind, Seq<char>)>) -> bool {
    &&& ts.len() > 0
    &&& ts.len() < usize::MAX - 4
    &&& ts.last().0 == TokenKind::End
    &&& forall|i: int| 0 <= i < ts.len() && ts[i].0 == TokenKind::Sym ==> (#[trigger] ts[i]).1.len() > 0
}

/// A copy of a token.
pub fn clone_token(t: &Token) -> (r: Token)
    ensures
        r.kind == t.kind,
        r.text@ == t.text@,
        r.loc.row == t.loc.row,
        r.loc.col == t.loc.col,
{
    let file_path = match &t.loc.file_path {
        Some(p) => Some(p.clone()),
        None => None,
    };
    Token { kind: t.kind, text: t.text.clone(), loc: Loc { file_path, row: t.loc.row, col: t.loc.col } }
}

impl Expr {
    /// Parses an expression from `tokens` at `*pos`, moving `*pos` past it;
    /// on error, the unexpected token and the kinds that would have fit.
    pub fn parse_peekable(tokens: &Vec<Token>, pos: &mut usize) -> (r: Result<Expr, Error>)
        requires
            tokens_ok(token_views(tokens@)),
            *old(pos) < tokens@.len(),
        ensures
            match (r, parse_expr(token_views(tokens@), *old(pos) as int)) {
                (Ok(e), Ok((t, p))) => e@ == t && *final(pos) == p && p < tokens@.len(),
                (Err(Error::UnexpectedToken(set, tok)), Err((bits, at))) => set.0 == bits && 0 <= at
                    < tokens@.len() && tok.kind == tokens@[at].kind && tok.text@ == tokens@[at].text@,
                _ => false,
            },
        decreases tokens@.len() - *old(pos), 1int,
    {
        let ghost ts = token_views(tokens@);
        let i = *pos;
        assert(ts[i as int] == (tokens@[i as int].kind, tokens@[i as int].text@));
        if tokens[i].kind != TokenKind::Sym {
            *pos = i + 1;
            return Err(Error::UnexpectedToken(TokenKindSet::single(TokenKind::Sym), clone_token(&tokens[i])));
        }
        proof {
            assert(ts.last().0 == TokenKind::End);
            assert(i + 1 < tokens@.len());
            assert(ts[i as int].1.len() > 0);
        }
        let name = tokens[i].text.as_str();
        assert(ts[i + 1] == (tokens@[i + 1].kind, tokens@[i + 1].text@));
        if tokens[i + 1].kind == TokenKind::OpenParen {
            let head = Box::new(Expr::var_or_sym_from_name(name));
            assert(i + 2 < tokens@.len());
            assert(ts[i + 2] == (tokens@[i + 2].kind, tokens@[i + 2].text@));
            if tokens[i + 2].kind == TokenKind::CloseParen {
                *pos = i + 3;
                let r = Expr::Fun(head, Vec::new());
                assert(r@->Fun_1 =~= Seq::<Term>::empty());
                return Ok(r);
            }
            *pos = i + 2;
            let args = Self::parse_args(tokens, pos, Vec::new());
            assert(Seq::<Expr>::empty().map_values(|e: Expr| e@) =~= Seq::<Term>::empty());
            match args {
                Ok(a) => {
                    let r = Expr::Fun(head, a);
                    assert(r@->Fun_1 =~= a@.map_values(|e: Expr| e@));
                    Ok(r)
                },
                Err(e) => Err(e),
            }
        } else {
            *pos = i + 1;
            Ok(Expr::var_or_sym_from_name(name))
        }
    }

    /// Parses arguments from `*pos` through the closing parenthesis, after
    /// those already in `acc`.
    fn parse_args(tokens: &Vec<Token>, pos: &mut usize, acc: Vec<Expr>) -> (r: Result<Vec<Expr>, Error>)
        requires
            tokens_ok(token_views(tokens@)),
            *old(pos) < tokens@.len(),
        ensures
            match (r, parse_args(token_views(tokens@), *old(pos) as int, acc@.map_values(|e: Expr| e@))) {
                (Ok(v), Ok((ts, p))) => v@.map_values(|e: Expr| e@) == ts && *final(pos) == p && p
                    < tokens@.len(),
                (Err(Error::UnexpectedToken(set, tok)), Err((bits, at))) => set.0 == bits && 0 <= at
                    < tokens@.len() && tok.kind == tokens@[at].kind && tok.text@ == tokens@[at].text@,
                _ => false,
            },
        decreases tokens@.len() - *old(pos), 2int,
    {
        let ghost ts = token_views(tokens@);
        let start = *pos;
        let a = match Self::parse_peekable(tokens, pos) {
            Ok(a) => a,
            Err(e) => return Err(e),
        };
        let p = *pos;
        assert(ts[p as int] == (tokens@[p as int].kind, tokens@[p as int].text@));
        let mut acc = acc;
        let ghost acc0 = acc@.map_values(|e: Expr| e@);
        acc.push(a);
        assert(acc@.map_values(|e: Expr| e@) =~= acc0.push(a@));
        if p <= start {
            *pos = p + 1;
            return Err(Error::UnexpectedToken(TokenKindSet::single(TokenKind::CloseParen), clone_token(&tokens[p])));
        }
        if tokens[p].kind == TokenKind::Comma {
            assert(ts.last().0 == TokenKind::End);
            *pos = p + 1;
            Self::parse_args(tokens, pos, acc)
        } else if tokens[p].kind == TokenKind::CloseParen {
            *pos = p + 1;
            assert(ts.last().0 == TokenKind::End);
            Ok(acc)
        } else {
            *pos = p + 1;
            Err(Error::UnexpectedToken(TokenKindSet::single(TokenKind::CloseParen), clone_token(&tokens[p])))
        }
    }
}

/// The text of a term: a name, or a head followed by its arguments in
/// parentheses, separated by commas.
pub open spec fn render(t: Term) -> Seq<char>
    decreases t, 0int,
{
    match t {
        Term::Sym(n) => n,
        Term::Var(n) => n,
        Term::Fun(h, args) => render(*h) + seq!['('] + render_args(args, 0) + seq![')'],
    }
}

/// The text of the arguments from `i` on, each after a comma but the first.
pub open spec fn render_args(args: Seq<Term>, i: int) -> Seq<char>
    decreases args, args.len() - i,
{
    if i < 0 || i >= args.len() {
        Seq::empty()
    } else {
        (if i > 0 { seq![','] } else { Seq::empty() }) + render(args[i]) + render_args(args, i + 1)
    }
}

/// Appends the characters of `s` to `out`.
pub fn append_chars(s: &str, out: &mut Vec<char>)
    ensures
        final(out)@ == old(out)@ + s@,
{
    let mut it = s.chars();
    let ghost start = out@;
    let ghost mut k: int = 0;
    proof {
        broadcast use vstd::string::axiom_spec_iter;

        assert(s@.skip(0) =~= s@);
        assert(s@.take(0) =~= Seq::<char>::empty());
        assert(start + Seq::<char>::empty() =~= start);
    }
    loop
        invariant
            it.remaining() == s@.skip(k),
            it.obeys_prophetic_iter_laws(),
            0 <= k <= s@.len(),
            out@ == start + s@.take(k),
            start == old(out)@,
        ensures
            out@ == start + s@,
            start == old(out)@,
        decreases s@.len() - k,
    {
        proof {
            broadcast use vstd::string::next_postcondition;

        }
        match it.next() {
            Some(c) => {
                assert(s@.skip(k).len() > 0);
                assert(s@.skip(k)[0] == s@[k]);
                out.push(c);
                proof {
                    assert(s@.take(k + 1) =~= s@.take(k).push(c));
                    assert(s@.skip(k).drop_first() =~= s@.skip(k + 1));
                    k = k + 1;
                }
            },
            None => {
                assert(s@.skip(k).len() == 0);
                assert(s@.take(k) =~= s@);
                break;
            },
        }
    }
}

/// Appends the text of `e` to `out`.
pub fn render_into(e: &Expr, out: &mut Vec<char>)
    ensures
        final(out)@ == old(out)@ + render(e@),
    decreases e,
{
    match e {
        Expr::Sym(n) => append_chars(n.as_str(), out),
        Expr::Var(n) => append_chars(n.as_str(), out),
        Expr::Fun(h, args) => {
            let ghost start = out@;
            render_into(h, out);
            out.push('(');
            let ghost ta = e@->Fun_1;
            let mut i: usize = 0;
            while i < args.len()
                invariant
                    i <= args@.len(),
                    *e is Fun,
                    (*e)->Fun_1 == *args,
                    ta == e@->Fun_1,
                    ta.len() == args@.len(),
                    forall|j: int| 0 <= j < args@.len() ==> ta[j] == (#[trigger] args@[j])@,
                    start + render(h@) + seq!['('] + render_args(ta, 0) == out@ + render_args(ta, i as int),
                decreases args@.len() - i,
            {
                proof {
                    lemma_arg_decreases(*e, i as int);
                }
                let ghost before = out@;
                if i > 0 {
                    out.push(',');
                }
                render_into(&args[i], out);
                proof {
                    let sep: Seq<char> = if i > 0 { seq![','] } else { Seq::empty() };
                    assert(render_args(ta, i as int) == sep + render(ta[i as int]) + render_args(ta, i + 1));
                    assert(out@ == before + sep + render(ta[i as int]));
                }
                i = i + 1;
            }
            out.push(')');
            assert(render_args(ta, i as int) =~= Seq::<char>::empty());
        },
    }
}

} // verus!
