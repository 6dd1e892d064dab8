//! The command processor of the term-rewriting language: defining rules,
//! shaping an expression by applying rules to it, undoing and finishing.
use vstd::prelude::*;
use crate::lexer::{Token, TokenKind, TokenKindSet, kind_bits, string_of};
use crate::rewrite::{
    append_chars, apply_spec, clone_token, parse_expr, render, render_into,
    token_views, tokens_ok, Error, Expr, Rule, Term,
};
use crate::lexer::Loc;

verus! {

/// The REPL's state: named rules, the expression being shaped and its
/// history, and whether to quit.
pub struct Context {
    pub rules: Vec<(String, Rule)>,
    pub current_expr: Option<Expr>,
    pub shaping_history: Vec<Expr>,
    pub quit: bool,
}

/// The value of a context.
pub struct ContextView {
    pub rules: Seq<(Seq<char>, Term, Term)>,
    pub current: Option<Term>,
    pub history: Seq<Term>,
    pub quit: bool,
}

impl View for Context {
    type V = ContextView;

    open spec fn view(&self) -> ContextView {
        ContextView {
            rules: self.rules@.map_values(|e: (String, Rule)| (e.0@, e.1.head@, e.1.body@)),
            current: match self.current_expr {
                Some(e) => Some(e@),
                None => None,
            },
            history: self.shaping_history@.map_values(|e: Expr| e@),
            quit: self.quit,
        }
    }
}

/// The value of an error: its variant, with the expected kinds (as bits)
/// and the token position of an unexpected token, or the rule's name.
pub enum ErrorView {
    Unexpected(u64, int),
    RuleAlreadyExists(Seq<char>),
    RuleDoesNotExist(Seq<char>),
    AlreadyShaping,
    NoShapingInPlace,
    NoHistory,
}

/// `e` is the error `v` describes, its unexpected token read from `tokens`.
pub open spec fn error_is(e: Error, v: ErrorView, tokens: Seq<Token>) -> bool {
    match (e, v) {
        (Error::UnexpectedToken(set, tok), ErrorView::Unexpected(bits, at)) => set.0 == bits && 0 <= at
            < tokens.len() && tok.kind == tokens[at].kind && tok.text@ == tokens[at].text@,
        (Error::RuleAlreadyExists(n, _, _), ErrorView::RuleAlreadyExists(m)) => n@ == m,
        (Error::RuleDoesNotExist(n, _), ErrorView::RuleDoesNotExist(m)) => n@ == m,
        (Error::AlreadyShaping(_), ErrorView::AlreadyShaping) => true,
        (Error::NoShapingInPlace(_), ErrorView::NoShapingInPlace) => true,
        (Error::NoHistory(_), ErrorView::NoHistory) => true,
        _ => false,
    }
}

/// The kinds that may start a command.
pub open spec fn command_bits() -> u64 {
    0x201f
}

/// The kinds that may follow `apply`.
pub open spec fn apply_bits() -> u64 {
    0x21
}

/// Index of the rule named `n`, searching from `i`.
pub open spec fn rule_index(rs: Seq<(Seq<char>, Term, Term)>, n: Seq<char>, i: int) -> Option<int>
    decreases rs.len() - i,
{
    if i < 0 || i >= rs.len() {
        None
    } else if rs[i].0 == n {
        Some(i)
    } else {
        rule_index(rs, n, i + 1)
    }
}

/// Parses `head = body` at `pos`.
pub open spec fn rule_text(ts: Seq<(TokenKind, Seq<char>)>, pos: int) -> Result<(Term, Term, int), ErrorView> {
    match parse_expr(ts, pos) {
        Err((b, at)) => Err(ErrorView::Unexpected(b, at)),
        Ok((head, p)) => if ts[p].0 != TokenKind::Equals {
            Err(ErrorView::Unexpected(kind_bits(TokenKind::Equals), p))
        } else {
            match parse_expr(ts, p + 1) {
                Err((b, at)) => Err(ErrorView::Unexpected(b, at)),
                Ok((body, p2)) => Ok((head, body, p2)),
            }
        },
    }
}

/// The context after shaping the current expression into `new`.
pub open spec fn shaped(c: ContextView, new: Term) -> ContextView {
    ContextView { current: Some(new), history: c.history.push(c.current->Some_0), ..c }
}

/// What one command at `pos` does: the new context, the text to show and
/// the position after the command; or the error.
pub open spec fn command_spec(c: ContextView, ts: Seq<(TokenKind, Seq<char>)>, pos: int) -> Result<
    (ContextView, Seq<char>, int),
    ErrorView,
> {
    let k = ts[pos].0;
    if k == TokenKind::Rule {
        if ts[pos + 1].0 != TokenKind::Sym {
            Err(ErrorView::Unexpected(kind_bits(TokenKind::Sym), pos + 1))
        } else if rule_index(c.rules, ts[pos + 1].1, 0) is Some {
            Err(ErrorView::RuleAlreadyExists(ts[pos + 1].1))
        } else {
            match rule_text(ts, pos + 2) {
                Err(e) => Err(e),
                Ok((head, body, p)) => Ok(
                    (
                        ContextView { rules: c.rules.push((ts[pos + 1].1, head, body)), ..c },
                        "rule "@ + render(head) + " = "@ + render(body),
                        p,
                    ),
                ),
            }
        }
    } else if k == TokenKind::Shape {
        if c.current is Some {
            Err(ErrorView::AlreadyShaping)
        } else {
            match parse_expr(ts, pos + 1) {
                Err((b, at)) => Err(ErrorView::Unexpected(b, at)),
                Ok((e, p)) => Ok((ContextView { current: Some(e), ..c }, "shaping "@ + render(e), p)),
            }
        }
    } else if k == TokenKind::Apply {
        if c.current is None {
            Err(ErrorView::NoShapingInPlace)
        } else if ts[pos + 1].0 == TokenKind::Sym {
            match rule_index(c.rules, ts[pos + 1].1, 0) {
                None => Err(ErrorView::RuleDoesNotExist(ts[pos + 1].1)),
                Some(i) => {
                    let new = apply_spec(c.rules[i].1, c.rules[i].2, c.current->Some_0);
                    Ok((shaped(c, new), " => "@ + render(new), pos + 2))
                },
            }
        } else if ts[pos + 1].0 == TokenKind::Rule {
            match rule_text(ts, pos + 2) {
                Err(e) => Err(e),
                Ok((head, body, p)) => {
                    let new = apply_spec(head, body, c.current->Some_0);
                    Ok((shaped(c, new), " => "@ + render(new), p))
                },
            }
        } else {
            Err(ErrorView::Unexpected(apply_bits(), pos + 1))
        }
    } else if k == TokenKind::Done {
        if c.current is None {
            Err(ErrorView::NoShapingInPlace)
        } else {
            Ok((ContextView { current: None, history: Seq::empty(), ..c }, Seq::empty(), pos + 1))
        }
    } else if k == TokenKind::Undo {
        if c.current is None {
            Err(ErrorView::NoShapingInPlace)
        } else if c.history.len() == 0 {
            Err(ErrorView::NoHistory)
        } else {
            Ok(
                (
                    ContextView { current: Some(c.history.last()), history: c.history.drop_last(), ..c },
                    " => "@ + render(c.history.last()),
                    pos + 1,
                ),
            )
        }
    } else if k == TokenKind::Quit {
        Ok((ContextView { quit: true, ..c }, Seq::empty(), pos + 1))
    } else {
        Err(ErrorView::Unexpected(command_bits(), pos))
    }
}

/// Takes the token at `*pos`: it if its kind is in `kind`, else the error.
pub fn expect_token_kind(tokens: &Vec<Token>, pos: &mut usize, kind: TokenKindSet) -> (r: Result<Token, Error>)
    requires
        *old(pos) < tokens@.len(),
    ensures
        *final(pos) == *old(pos) + 1,
        r is Ok <==> kind@.contains(tokens@[*old(pos) as int].kind),
        r matches Ok(t) ==> t.kind == tokens@[*old(pos) as int].kind && t.text@ == tokens@[*old(pos) as int].text@,
        r matches Err(e) ==> error_is(e, ErrorView::Unexpected(kind.0, *old(pos) as int), tokens@),
{
    let i = *pos;
    let n = tokens.len();
    assert(i < n);
    *pos = i + 1;
    let token = clone_token(&tokens[i]);
    if kind.contains(token.kind) {
        Ok(token)
    } else {
        Err(Error::UnexpectedToken(kind, token))
    }
}

/// A copy of a location.
pub fn clone_loc(l: &Loc) -> (r: Loc)
    ensures
        r.row == l.row,
        r.col == l.col,
{
    let file_path = match &l.file_path {
        Some(p) => Some(p.clone()),
        None => None,
    };
    Loc { file_path, row: l.row, col: l.col }
}

/// Parses `head = body` at `*pos`.
fn parse_rule_text(tokens: &Vec<Token>, pos: &mut usize) -> (r: Result<(Expr, Expr), Error>)
    requires
        tokens_ok(token_views(tokens@)),
        *old(pos) < tokens@.len(),
    ensures
        match (r, rule_text(token_views(tokens@), *old(pos) as int)) {
            (Ok((h, b)), Ok((h2, b2, p))) => h@ == h2 && b@ == b2 && *final(pos) == p && p < tokens@.len(),
            (Err(e), Err(v)) => error_is(e, v, tokens@),
            _ => false,
        },
{
    let ghost ts = token_views(tokens@);
    let head = Expr::parse_peekable(tokens, pos)?;
    let p = *pos;
    assert(ts[p as int] == (tokens@[p as int].kind, tokens@[p as int].text@));
    let eq = expect_token_kind(tokens, pos, TokenKindSet::single(TokenKind::Equals));
    match eq {
        Ok(_) => {},
        Err(e) => {
            return Err(e);
        },
    }
    assert(ts.last().0 == TokenKind::End);
    let body = Expr::parse_peekable(tokens, pos)?;
    Ok((head, body))
}

impl Context {
    /// A context with no rules and nothing being shaped.
    pub fn new() -> (r: Context)
        ensures
            r@ == (ContextView { rules: Seq::empty(), current: None, history: Seq::empty(), quit: false }),
    {
        let r = Context { rules: Vec::new(), current_expr: None, shaping_history: Vec::new(), quit: false };
        assert(r@.rules =~= Seq::empty());
        assert(r@.history =~= Seq::empty());
        r
    }

    /// Index of the rule named `name`.
    fn find_rule(&self, name: &String) -> (r: Option<usize>)
        ensures
            match r {
                Some(i) => rule_index(self@.rules, name@, 0) == Some(i as int) && i < self.rules@.len(),
                None => rule_index(self@.rules, name@, 0) is None,
            },
    {
        let mut i: usize = 0;
        while i < self.rules.len()
            invariant
                i <= self.rules@.len(),
                rule_index(self@.rules, name@, 0) == rule_index(self@.rules, name@, i as int),
            decreases self.rules@.len() - i,
        {
            assert(self@.rules[i as int].0 == self.rules@[i as int].0@);
            if self.rules[i].0.eq(name) {
                return Some(i);
            }
            i = i + 1;
        }
        None
    }

    /// Makes `new` the expression being shaped, the old one going to the
    /// history; returns the text to show.
    fn shape_into(&mut self, new: Expr) -> (r: Vec<char>)
        requires
            old(self)@.current is Some,
        ensures
            final(self)@ == shaped(old(self)@, new@),
            r@ == " => "@ + render(new@),
    {
        let mut out: Vec<char> = Vec::new();
        append_chars(" => ", &mut out);
        render_into(&new, &mut out);
        proof {
            reveal_strlit(" => ");
            assert(Seq::<char>::empty() + " => "@ == " => "@);
        }
        let old_expr = self.current_expr.take();
        self.current_expr = Some(new);
        match old_expr {
            Some(e) => {
                let ghost h0 = self.shaping_history@;
                self.shaping_history.push(e);
                assert(self.shaping_history@.map_values(|x: Expr| x@) =~= h0.map_values(|x: Expr| x@).push(e@));
            },
            None => {},
        }
        out
    }

    fn cmd_rule(&mut self, tokens: &Vec<Token>, pos: &mut usize, keyword_loc: Loc) -> (r: Result<Vec<char>, Error>)
        requires
            tokens_ok(token_views(tokens@)),
            *old(pos) >= 1,
            *old(pos) < tokens@.len(),
            token_views(tokens@)[*old(pos) - 1].0 == TokenKind::Rule,
        ensures
            match (r, command_spec(old(self)@, token_views(tokens@), *old(pos) - 1)) {
                (Ok(out), Ok((c2, text, p))) => final(self)@ == c2 && out@ == text && *final(pos) == p,
                (Err(e), Err(v)) => error_is(e, v, tokens@) && final(self)@ == old(self)@,
                _ => false,
            },
    {
        let ghost ts = token_views(tokens@);
        let ghost p0 = *pos;
        assert(ts[p0 as int] == (tokens@[p0 as int].kind, tokens@[p0 as int].text@));
        let name = expect_token_kind(tokens, pos, TokenKindSet::single(TokenKind::Sym))?;
        assert(ts.last().0 == TokenKind::End);
        if let Some(i) = self.find_rule(&name.text) {
            return Err(Error::RuleAlreadyExists(name.text, clone_loc(&name.loc), clone_loc(&self.rules[i].1.loc)));
        }
        let (head, body) = parse_rule_text(tokens, pos)?;
        let mut out: Vec<char> = Vec::new();
        append_chars("rule ", &mut out);
        render_into(&head, &mut out);
        append_chars(" = ", &mut out);
        render_into(&body, &mut out);
        proof {
            reveal_strlit("rule ");
            reveal_strlit(" = ");
            assert(out@ =~= "rule "@ + render(head@) + " = "@ + render(body@));
        }
        let ghost r0 = self@.rules;
        let ghost nm = name.text@;
        self.rules.push((name.text, Rule { loc: keyword_loc, head, body }));
        assert(self@.rules =~= r0.push((nm, head@, body@)));
        Ok(out)
    }

    fn cmd_shape(&mut self, tokens: &Vec<Token>, pos: &mut usize, keyword_loc: Loc) -> (r: Result<Vec<char>, Error>)
        requires
            tokens_ok(token_views(tokens@)),
            *old(pos) >= 1,
            *old(pos) < tokens@.len(),
            token_views(tokens@)[*old(pos) - 1].0 == TokenKind::Shape,
        ensures
            match (r, command_spec(old(self)@, token_views(tokens@), *old(pos) - 1)) {
                (Ok(out), Ok((c2, text, p))) => final(self)@ == c2 && out@ == text && *final(pos) == p,
                (Err(e), Err(v)) => error_is(e, v, tokens@) && final(self)@ == old(self)@,
                _ => false,
            },
    {
        if self.current_expr.is_some() {
            return Err(Error::AlreadyShaping(keyword_loc));
        }
        let e = Expr::parse_peekable(tokens, pos)?;
        let mut out: Vec<char> = Vec::new();
        append_chars("shaping ", &mut out);
        render_into(&e, &mut out);
        proof {
            reveal_strlit("shaping ");
            assert(out@ =~= "shaping "@ + render(e@));
        }
        self.current_expr = Some(e);
        Ok(out)
    }

    fn cmd_apply(&mut self, tokens: &Vec<Token>, pos: &mut usize, keyword_loc: Loc) -> (r: Result<Vec<char>, Error>)
        requires
            tokens_ok(token_views(tokens@)),
            *old(pos) >= 1,
            *old(pos) < tokens@.len(),
            token_views(tokens@)[*old(pos) - 1].0 == TokenKind::Apply,
        ensures
            match (r, command_spec(old(self)@, token_views(tokens@), *old(pos) - 1)) {
                (Ok(out), Ok((c2, text, p))) => final(self)@ == c2 && out@ == text && *final(pos) == p,
                (Err(e), Err(v)) => error_is(e, v, tokens@) && final(self)@ == old(self)@,
                _ => false,
            },
    {
        let ghost ts = token_views(tokens@);
        let ghost p0 = *pos;
        if self.current_expr.is_none() {
            return Err(Error::NoShapingInPlace(keyword_loc));
        }
        assert(ts[p0 as int] == (tokens@[p0 as int].kind, tokens@[p0 as int].text@));
        let expected = TokenKindSet::empty().set(TokenKind::Sym).set(TokenKind::Rule);
        assert((0u64 | (1u64 << 5u64)) | (1u64 << 0u64) == 0x21u64) by (bit_vector);
        let token = expect_token_kind(tokens, pos, expected)?;
        assert(ts.last().0 == TokenKind::End);
        let new = if token.kind == TokenKind::Sym {
            match self.find_rule(&token.text) {
                Some(i) => {
                    let cur = match &self.current_expr {
                        Some(e) => e,
                        None => {
                            return Err(Error::NoShapingInPlace(keyword_loc));
                        },
                    };
                    self.rules[i].1.apply_all(cur)
                },
                None => {
                    return Err(Error::RuleDoesNotExist(token.text, clone_loc(&token.loc)));
                },
            }
        } else {
            let (head, body) = parse_rule_text(tokens, pos)?;
            let rule = Rule { loc: clone_loc(&token.loc), head, body };
            let cur = match &self.current_expr {
                Some(e) => e,
                None => {
                    return Err(Error::NoShapingInPlace(keyword_loc));
                },
            };
            rule.apply_all(cur)
        };
        let out = self.shape_into(new);
        Ok(out)
    }

    fn cmd_undo(&mut self, keyword_loc: Loc) -> (r: Result<Vec<char>, Error>)
        ensures
            old(self)@.current is None ==> (r matches Err(Error::NoShapingInPlace(_))) && final(self)@ == old(self)@,
            old(self)@.current is Some && old(self)@.history.len() == 0 ==> (r matches Err(Error::NoHistory(_)))
                && final(self)@ == old(self)@,
            old(self)@.current is Some && old(self)@.history.len() > 0 ==> (r matches Ok(out) && out@ == " => "@
                + render(old(self)@.history.last())) && final(self)@ == (ContextView {
                current: Some(old(self)@.history.last()),
                history: old(self)@.history.drop_last(),
                ..old(self)@
            }),
    {
        if self.current_expr.is_none() {
            return Err(Error::NoShapingInPlace(keyword_loc));
        }
        let ghost h0 = self.shaping_history@;
        match self.shaping_history.pop() {
            Some(prev) => {
                assert(self.shaping_history@.map_values(|x: Expr| x@) =~= h0.map_values(|x: Expr| x@).drop_last());
                let mut out: Vec<char> = Vec::new();
                append_chars(" => ", &mut out);
                render_into(&prev, &mut out);
                proof {
                    reveal_strlit(" => ");
                    assert(out@ =~= " => "@ + render(prev@));
                }
                self.current_expr = Some(prev);
                Ok(out)
            },
            None => Err(Error::NoHistory(keyword_loc)),
        }
    }

    /// Runs the command at `*pos`: `rule NAME head = body`, `shape expr`,
    /// `apply NAME`, `apply rule head = body`, `done`, `undo` or `quit`.
    /// Returns the text to show; on error the context is unchanged.
    pub fn process_command(&mut self, tokens: &Vec<Token>, pos: &mut usize) -> (r: Result<String, Error>)
        requires
            tokens_ok(token_views(tokens@)),
            *old(pos) < tokens@.len(),
        ensures
            match (r, command_spec(old(self)@, token_views(tokens@), *old(pos) as int)) {
                (Ok(out), Ok((c2, text, p))) => final(self)@ == c2 && out@ == text && *final(pos) == p,
                (Err(e), Err(v)) => error_is(e, v, tokens@) && final(self)@ == old(self)@,
                _ => false,
            },
    {
        let ghost ts = token_views(tokens@);
        let ghost p0 = *pos;
        assert(ts[p0 as int] == (tokens@[p0 as int].kind, tokens@[p0 as int].text@));
        let expected = TokenKindSet::empty().set(TokenKind::Rule).set(TokenKind::Shape).set(
            TokenKind::Apply,
        ).set(TokenKind::Done).set(TokenKind::Undo).set(TokenKind::Quit);
        assert((((((0u64 | (1u64 << 0u64)) | (1u64 << 1u64)) | (1u64 << 2u64)) | (1u64 << 3u64)) | (1u64
            << 13u64)) | (1u64 << 4u64) == 0x201fu64) by (bit_vector);
        let keyword = expect_token_kind(tokens, pos, expected)?;
        assert(ts.last().0 == TokenKind::End);
        let out = match keyword.kind {
            TokenKind::Rule => self.cmd_rule(tokens, pos, keyword.loc)?,
            TokenKind::Shape => self.cmd_shape(tokens, pos, keyword.loc)?,
            TokenKind::Apply => self.cmd_apply(tokens, pos, keyword.loc)?,
            TokenKind::Done => {
                if self.current_expr.is_none() {
                    return Err(Error::NoShapingInPlace(keyword.loc));
                }
                self.current_expr = None;
                self.shaping_history.clear();
                assert(self@.history =~= Seq::<Term>::empty());
                Vec::new()
            },
            TokenKind::Undo => self.cmd_undo(keyword.loc)?,
            _ => {
                self.quit = true;
                Vec::new()
            },
        };
        Ok(string_of(&out))
    }
}

} // verus!
