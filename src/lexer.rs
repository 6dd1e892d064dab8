//! The lexer of the term-rewriting language: keywords, symbols and
//! punctuation, with source locations.
use vstd::prelude::*;

verus! {

/// A position in a source: optional file, 1-based row and column.
#[derive(Debug)]
pub struct Loc {
    pub file_path: Option<String>,
    pub row: usize,
    pub col: usize,
}

/// Kinds of tokens.
#[derive(Clone, Copy, Debug, PartialEq, Eq, Structural, Hash)]
pub enum TokenKind {
    Rule,
    Shape,
    Apply,
    Done,
    Quit,
    Sym,
    OpenParen,
    CloseParen,
    Comma,
    Colon,
    Equals,
    Invalid,
    End,
    Undo,
}

/// Bit position of each kind in a `TokenKindSet`.
pub open spec fn kind_index(k: TokenKind) -> u64 {
    match k {
        TokenKind::Rule => 0,
        TokenKind::Shape => 1,
        TokenKind::Apply => 2,
        TokenKind::Done => 3,
        TokenKind::Quit => 4,
        TokenKind::Sym => 5,
        TokenKind::OpenParen => 6,
        TokenKind::CloseParen => 7,
        TokenKind::Comma => 8,
        TokenKind::Colon => 9,
        TokenKind::Equals => 10,
        TokenKind::Invalid => 11,
        TokenKind::End => 12,
        TokenKind::Undo => 13,
    }
}

/// Bit position of `kind`.
pub fn kind_bit(kind: TokenKind) -> (r: u64)
    ensures
        r == kind_index(kind),
        r < 14,
{
    match kind {
        TokenKind::Rule => 0,
        TokenKind::Shape => 1,
        TokenKind::Apply => 2,
        TokenKind::Done => 3,
        TokenKind::Quit => 4,
        TokenKind::Sym => 5,
        TokenKind::OpenParen => 6,
        TokenKind::CloseParen => 7,
        TokenKind::Comma => 8,
        TokenKind::Colon => 9,
        TokenKind::Equals => 10,
        TokenKind::Invalid => 11,
        TokenKind::End => 12,
        TokenKind::Undo => 13,
    }
}

/// The bits of the one-kind set of `k`.
pub open spec fn kind_bits(k: TokenKind) -> u64 {
    (1u64 << kind_index(k)) as u64
}

/// Bit `i` of `bits` is set.
pub open spec fn bit_set(bits: u64, i: u64) -> bool {
    (bits >> i) & 1 == 1
}

/// A set of token kinds, one bit per kind.
#[derive(Clone, Copy, Debug, PartialEq, Eq, Structural, Hash)]
pub struct TokenKindSet(pub u64);

impl View for TokenKindSet {
    type V = Set<TokenKind>;

    open spec fn view(&self) -> Set<TokenKind> {
        Set::new(|k: TokenKind| bit_set(self.0, kind_index(k)))
    }
}

impl TokenKindSet {
    /// The empty set.
    pub fn empty() -> (r: Self)
        ensures
            r@ == Set::<TokenKind>::empty(),
            r.0 == 0,
    {
        let r = TokenKindSet(0);
        assert forall|i: u64| !bit_set(0, i) by {
            assert((0u64 >> i) & 1 != 1) by (bit_vector);
        }
        assert(r@ =~= Set::<TokenKind>::empty());
        r
    }

    /// The set of `kind` alone.
    pub fn single(kind: TokenKind) -> (r: Self)
        ensures
            r@ == Set::<TokenKind>::empty().insert(kind),
            r.0 == kind_bits(kind),
    {
        let r = Self::empty().set(kind);
        let b = kind_bit(kind);
        assert(0u64 | (1u64 << b) == (1u64 << b)) by (bit_vector);
        r
    }

    /// This set with `kind` added.
    pub fn set(self, kind: TokenKind) -> (r: Self)
        ensures
            r@ == self@.insert(kind),
            r.0 == self.0 | (1u64 << kind_index(kind)),
    {
        let b = kind_bit(kind);
        let r = TokenKindSet(self.0 | (1u64 << b));
        assert forall|k: TokenKind| #[trigger] r@.contains(k) == self@.insert(kind).contains(k) by {
            let i = kind_index(k);
            let x = self.0;
            assert(i < 14);
            assert(bit_set(x | (1u64 << b), i) == (i == b || bit_set(x, i))) by (bit_vector)
                requires
                    i < 64,
                    b < 64,
            ;
            assert(i == b <==> k == kind);
        }
        assert(r@ =~= self@.insert(kind));
        r
    }

    /// This set with `kind` taken out.
    pub fn unset(self, kind: TokenKind) -> (r: Self)
        ensures
            r@ == self@.remove(kind),
    {
        let b = kind_bit(kind);
        let r = TokenKindSet(self.0 & !(1u64 << b));
        assert forall|k: TokenKind| #[trigger] r@.contains(k) == self@.remove(kind).contains(k) by {
            let i = kind_index(k);
            let x = self.0;
            assert(i < 14);
            assert(bit_set(x & !(1u64 << b), i) == (i != b && bit_set(x, i))) by (bit_vector)
                requires
                    i < 64,
                    b < 64,
            ;
            assert(i == b <==> k == kind);
        }
        assert(r@ =~= self@.remove(kind));
        r
    }

    /// Whether `kind` is in this set.
    pub fn contains(&self, kind: TokenKind) -> (r: bool)
        ensures
            r == self@.contains(kind),
    {
        let b = kind_bit(kind);
        let x = self.0;
        assert(((x & (1u64 << b)) > 0) == bit_set(x, b)) by (bit_vector)
            requires
                b < 64,
        ;
        (self.0 & (1u64 << b)) > 0
    }
}

/// A token: its kind, its text and where it starts.
#[derive(Debug)]
pub struct Token {
    pub kind: TokenKind,
    pub text: String,
    pub loc: Loc,
}

/// Unicode `White_Space`.
pub open spec fn is_white_spec(c: char) -> bool {
    let u = c as u32;
    (0x09 <= u <= 0x0d) || u == 0x20 || u == 0x85 || u == 0xa0 || u == 0x1680 || (0x2000 <= u
        <= 0x200a) || u == 0x2028 || u == 0x2029 || u == 0x202f || u == 0x205f || u == 0x3000
}

/// Unicode `Alphabetic` or `Numeric`.
pub uninterp spec fn is_alnum_spec(c: char) -> bool;

/// Whether `c` is Unicode `White_Space`.
fn is_white(c: char) -> (r: bool)
    ensures
        r == is_white_spec(c),
{
    let u = c as u32;
    (0x09 <= u && u <= 0x0d) || u == 0x20 || u == 0x85 || u == 0xa0 || u == 0x1680 || (0x2000 <= u
        && u <= 0x200a) || u == 0x2028 || u == 0x2029 || u == 0x202f || u == 0x205f || u == 0x3000
}

/// Relies on char::is_alphanumeric: Unicode `Alphabetic` or `Numeric`;
/// true of ASCII letters and digits.
#[verifier::external_body]
fn is_alnum(c: char) -> (r: bool)
    ensures
        r == is_alnum_spec(c),
        ('a' <= c <= 'z' || 'A' <= c <= 'Z' || '0' <= c <= '9') ==> r,
{
    c.is_alphanumeric()
}

/// Relies on String's FromIterator<char>: the characters in order.
#[verifier::external_body]
pub(crate) fn string_of(chars: &Vec<char>) -> (r: String)
    ensures
        r@ == chars@,
{
    chars.iter().collect()
}

/// Kind of a one-character punctuation token.
pub open spec fn punct_kind(c: char) -> Option<TokenKind> {
    if c == '(' {
        Some(TokenKind::OpenParen)
    } else if c == ')' {
        Some(TokenKind::CloseParen)
    } else if c == ',' {
        Some(TokenKind::Comma)
    } else if c == '=' {
        Some(TokenKind::Equals)
    } else if c == ':' {
        Some(TokenKind::Colon)
    } else {
        None
    }
}

/// The keyword that `name` spells, if any.
pub open spec fn keyword_spec(name: Seq<char>) -> Option<TokenKind> {
    if name == seq!['r', 'u', 'l', 'e'] {
        Some(TokenKind::Rule)
    } else if name == seq!['s', 'h', 'a', 'p', 'e'] {
        Some(TokenKind::Shape)
    } else if name == seq!['a', 'p', 'p', 'l', 'y'] {
        Some(TokenKind::Apply)
    } else if name == seq!['d', 'o', 'n', 'e'] {
        Some(TokenKind::Done)
    } else if name == seq!['q', 'u', 'i', 't'] {
        Some(TokenKind::Quit)
    } else if name == seq!['u', 'n', 'd', 'o'] {
        Some(TokenKind::Undo)
    } else {
        None
    }
}

fn punct(c: char) -> (r: Option<TokenKind>)
    ensures
        r == punct_kind(c),
{
    if c == '(' {
        Some(TokenKind::OpenParen)
    } else if c == ')' {
        Some(TokenKind::CloseParen)
    } else if c == ',' {
        Some(TokenKind::Comma)
    } else if c == '=' {
        Some(TokenKind::Equals)
    } else if c == ':' {
        Some(TokenKind::Colon)
    } else {
        None
    }
}

fn chars_are(v: &Vec<char>, w: &[char]) -> (r: bool)
    ensures
        r == (v@ == w@),
{
    if v.len() != w.len() {
        return false;
    }
    let mut i: usize = 0;
    while i < v.len()
        invariant
            i <= v@.len(),
            v@.len() == w@.len(),
            forall|j: int| 0 <= j < i ==> v@[j] == w@[j],
        decreases v@.len() - i,
    {
        if v[i] != w[i] {
            return false;
        }
        i = i + 1;
    }
    assert(v@ =~= w@);
    true
}

/// The keyword that `name` spells, if any.
fn keyword_by_name(name: &Vec<char>) -> (r: Option<TokenKind>)
    ensures
        r == keyword_spec(name@),
{
    let rule = ['r', 'u', 'l', 'e'];
    let shape = ['s', 'h', 'a', 'p', 'e'];
    let apply = ['a', 'p', 'p', 'l', 'y'];
    let done = ['d', 'o', 'n', 'e'];
    let quit = ['q', 'u', 'i', 't'];
    let undo = ['u', 'n', 'd', 'o'];
    assert(rule@ == seq!['r', 'u', 'l', 'e']);
    assert(shape@ == seq!['s', 'h', 'a', 'p', 'e']);
    assert(apply@ == seq!['a', 'p', 'p', 'l', 'y']);
    assert(done@ == seq!['d', 'o', 'n', 'e']);
    assert(quit@ == seq!['q', 'u', 'i', 't']);
    assert(undo@ == seq!['u', 'n', 'd', 'o']);
    if chars_are(name, &rule) {
        Some(TokenKind::Rule)
    } else if chars_are(name, &shape) {
        Some(TokenKind::Shape)
    } else if chars_are(name, &apply) {
        Some(TokenKind::Apply)
    } else if chars_are(name, &done) {
        Some(TokenKind::Done)
    } else if chars_are(name, &quit) {
        Some(TokenKind::Quit)
    } else if chars_are(name, &undo) {
        Some(TokenKind::Undo)
    } else {
        None
    }
}

/// Splits a character sequence into tokens.
pub struct Lexer {
    pub chars: Vec<char>,
    pub pos: usize,
    pub invalid: bool,
    pub file_path: Option<String>,
    pub lnum: usize,
    pub bol: usize,
    pub cnum: usize,
    pub exhausted: bool,
}

impl Lexer {
    /// Position bookkeeping: `cnum` counts consumed characters (plus the
    /// virtual end token), `bol` is where the current line starts.
    pub open spec fn inv(&self) -> bool {
        &&& self.pos <= self.chars@.len()
        &&& self.chars@.len() < usize::MAX - 2
        &&& (self.exhausted || self.cnum == self.pos)
        &&& self.cnum <= self.pos + 2
        &&& self.bol <= self.cnum
        &&& self.lnum <= self.cnum
    }

    /// A lexer over `chars`, at its start.
    pub fn from_iter(chars: Vec<char>) -> (r: Self)
        requires
            chars@.len() < usize::MAX - 2,
        ensures
            r.inv(),
            r.chars@ == chars@,
            r.pos == 0 && r.lnum == 0 && r.bol == 0 && r.cnum == 0,
            !r.exhausted && !r.invalid && r.file_path is None,
    {
        Lexer { chars, pos: 0, invalid: false, file_path: None, lnum: 0, bol: 0, cnum: 0, exhausted: false }
    }

    /// The current location.
    pub fn loc(&self) -> (r: Loc)
        requires
            self.inv(),
        ensures
            r.row == self.lnum + 1,
            r.col == self.cnum - self.bol + 1,
            r.file_path == self.file_path,
    {
        let file_path = match &self.file_path {
            Some(p) => Some(p.clone()),
            None => None,
        };
        Loc { file_path, row: self.lnum + 1, col: self.cnum - self.bol + 1 }
    }

    /// Names the file that locations refer to.
    pub fn set_file_path(&mut self, file_path: &str)
        ensures
            final(self).file_path matches Some(p) && p@ == file_path@,
            final(self).chars == old(self).chars,
            final(self).pos == old(self).pos,
            final(self).lnum == old(self).lnum,
            final(self).bol == old(self).bol,
            final(self).cnum == old(self).cnum,
            final(self).exhausted == old(self).exhausted,
            final(self).invalid == old(self).invalid,
    {
        self.file_path = Some(file_path.to_owned());
    }

    /// The next character, if any, without consuming it.
    fn peek(&self) -> (r: Option<char>)
        ensures
            r == (if self.pos < self.chars@.len() { Some(self.chars@[self.pos as int]) } else { None }),
    {
        if self.pos < self.chars.len() {
            Some(self.chars[self.pos])
        } else {
            None
        }
    }

    /// Skips the rest of the line, its newline included.
    fn drop_line(&mut self, Ghost(p0): Ghost<int>, Ghost(l0): Ghost<int>, Ghost(b0): Ghost<int>)
        requires
            old(self).inv(),
            !old(self).exhausted,
            0 <= p0 <= old(self).pos,
            old(self).lnum == l0 + newlines(old(self).chars@, p0, old(self).pos as int),
            old(self).bol == line_start(old(self).chars@, p0, old(self).pos as int, b0),
        ensures
            final(self).inv(),
            !final(self).exhausted,
            final(self).chars == old(self).chars,
            final(self).file_path == old(self).file_path,
            final(self).pos == line_end(old(self).chars@, old(self).pos as int),
            final(self).lnum == l0 + newlines(final(self).chars@, p0, final(self).pos as int),
            final(self).bol == line_start(final(self).chars@, p0, final(self).pos as int, b0),
    {
        let ghost cs = self.chars@;
        let ghost start = self.pos as int;
        while self.pos < self.chars.len() && self.chars[self.pos] != '\n'
            invariant
                self.inv(),
                !self.exhausted,
                self.chars == old(self).chars,
                cs == self.chars@,
                self.file_path == old(self).file_path,
                start <= self.pos,
                0 <= p0 <= start,
                line_end(cs, start) == line_end(cs, self.pos as int),
                self.lnum == l0 + newlines(cs, p0, self.pos as int),
                self.bol == line_start(cs, p0, self.pos as int, b0),
            decreases self.chars@.len() - self.pos,
        {
            self.pos = self.pos + 1;
            self.cnum = self.cnum + 1;
        }
        if self.pos < self.chars.len() {
            self.pos = self.pos + 1;
            self.cnum = self.cnum + 1;
            self.lnum = self.lnum + 1;
            self.bol = self.cnum;
        }
    }

    /// Skips whitespace other than newlines.
    fn trim_whitespaces(&mut self, Ghost(p0): Ghost<int>, Ghost(l0): Ghost<int>, Ghost(b0): Ghost<int>)
        requires
            old(self).inv(),
            !old(self).exhausted,
            0 <= p0 <= old(self).pos,
            old(self).lnum == l0 + newlines(old(self).chars@, p0, old(self).pos as int),
            old(self).bol == line_start(old(self).chars@, p0, old(self).pos as int, b0),
        ensures
            final(self).inv(),
            !final(self).exhausted,
            final(self).chars == old(self).chars,
            final(self).file_path == old(self).file_path,
            final(self).pos == skip_spaces(old(self).chars@, old(self).pos as int),
            final(self).lnum == l0 + newlines(final(self).chars@, p0, final(self).pos as int),
            final(self).bol == line_start(final(self).chars@, p0, final(self).pos as int, b0),
    {
        let ghost cs = self.chars@;
        let ghost start = self.pos as int;
        while self.pos < self.chars.len() && is_white(self.chars[self.pos]) && self.chars[self.pos] != '\n'
            invariant
                self.inv(),
                !self.exhausted,
                self.chars == old(self).chars,
                cs == self.chars@,
                self.file_path == old(self).file_path,
                start <= self.pos,
                0 <= p0 <= start,
                skip_spaces(cs, start) == skip_spaces(cs, self.pos as int),
                self.lnum == l0 + newlines(cs, p0, self.pos as int),
                self.bol == line_start(cs, p0, self.pos as int, b0),
            decreases self.chars@.len() - self.pos,
        {
            self.pos = self.pos + 1;
            self.cnum = self.cnum + 1;
        }
    }

    /// The next token: punctuation, a keyword, a symbol (a run of
    /// alphanumeric characters), one invalid character, or the end; `None`
    /// after the end or an invalid character. Blanks, blank lines and lines
    /// that start with `#` are skipped first; the token's location is the
    /// row and column where it starts.
    pub fn next_token(&mut self) -> (r: Option<Token>)
        requires
            old(self).inv(),
        ensures
            final(self).inv(),
            final(self).chars == old(self).chars,
            old(self).exhausted ==> r is None,
            !old(self).exhausted ==> r is Some,
            r matches Some(t) ==> {
                let cs = old(self).chars@;
                let p0 = old(self).pos as int;
                let st = token_start(cs, p0);
                &&& t.loc.file_path == old(self).file_path
                &&& t.loc.row == old(self).lnum + newlines(cs, p0, st) + 1
                &&& t.loc.col == st - line_start(cs, p0, st, old(self).bol as int) + 1
                &&& (st >= cs.len() ==> t.kind == TokenKind::End && t.text@.len() == 0 && final(self).exhausted)
                &&& (st < cs.len() && punct_kind(cs[st]) is Some ==> t.kind == punct_kind(cs[st])->Some_0
                    && t.text@ == seq![cs[st]] && final(self).pos == st + 1 && !final(self).exhausted)
                &&& (st < cs.len() && punct_kind(cs[st]) is None && !is_alnum_spec(cs[st]) ==> t.kind
                    == TokenKind::Invalid && t.text@ == seq![cs[st]] && final(self).exhausted)
                &&& (st < cs.len() && punct_kind(cs[st]) is None && is_alnum_spec(cs[st]) ==> {
                    let e = word_end(cs, st + 1);
                    &&& t.text@ == cs.subrange(st, e)
                    &&& t.kind == (match keyword_spec(cs.subrange(st, e)) {
                        Some(k) => k,
                        None => TokenKind::Sym,
                    })
                    &&& final(self).pos == e
                    &&& !final(self).exhausted
                })
            },
    {
        if self.exhausted {
            return None;
        }
        let ghost cs = self.chars@;
        let ghost p0 = self.pos as int;
        let ghost l0 = self.lnum as int;
        let ghost b0 = self.bol as int;
        proof {
            lemma_skip_spaces(cs, p0);
        }
        self.trim_whitespaces(Ghost(p0), Ghost(l0), Ghost(b0));
        proof {
            lemma_skip_spaces(cs, p0);
            lemma_token_start_skip(cs, p0);
        }
        while self.pos < self.chars.len() && (self.chars[self.pos] == '\n' || self.chars[self.pos] == '#')
            invariant
                self.inv(),
                !self.exhausted,
                self.chars == old(self).chars,
                cs == self.chars@,
                self.file_path == old(self).file_path,
                0 <= p0 <= self.pos,
                token_start(cs, p0) == token_start(cs, self.pos as int),
                skip_spaces(cs, self.pos as int) == self.pos,
                self.lnum == l0 + newlines(cs, p0, self.pos as int),
                self.bol == line_start(cs, p0, self.pos as int, b0),
            decreases self.chars@.len() - self.pos,
        {
            let ghost q = self.pos as int;
            proof {
                lemma_line_end(cs, q);
            }
            self.drop_line(Ghost(p0), Ghost(l0), Ghost(b0));
            let ghost le = self.pos as int;
            proof {
                lemma_skip_spaces(cs, le);
                lemma_token_start_skip(cs, le);
            }
            self.trim_whitespaces(Ghost(p0), Ghost(l0), Ghost(b0));
            proof {
                lemma_skip_spaces(cs, le);
            }
        }
        let ghost st = self.pos as int;
        assert(token_start(cs, p0) == st);
        let loc = self.loc();
        match self.peek() {
            Some(ch) => {
                self.cnum = self.cnum + 1;
                self.pos = self.pos + 1;
                let mut text: Vec<char> = Vec::new();
                text.push(ch);
                if let Some(kind) = punct(ch) {
                    return Some(Token { kind, text: string_of(&text), loc });
                }
                if !is_alnum(ch) {
                    self.exhausted = true;
                    return Some(Token { kind: TokenKind::Invalid, text: string_of(&text), loc });
                }
                assert(text@ =~= cs.subrange(st, st + 1));
                while self.pos < self.chars.len() && is_alnum(self.chars[self.pos])
                    invariant
                        self.inv(),
                        !self.exhausted,
                        self.chars == old(self).chars,
                        cs == self.chars@,
                        self.file_path == old(self).file_path,
                        0 <= st < self.pos,
                        text@ == cs.subrange(st, self.pos as int),
                        word_end(cs, st + 1) == word_end(cs, self.pos as int),
                        forall|i: int| 0 <= i < text@.len() ==> is_alnum_spec(#[trigger] text@[i]),
                    decreases self.chars@.len() - self.pos,
                {
                    let ghost before = text@;
                    let c2 = self.chars[self.pos];
                    text.push(c2);
                    assert(text@ == before.push(c2));
                    assert(c2 == cs[self.pos as int]);
                    assert(0 <= st);
                    assert(cs.subrange(st, self.pos + 1) =~= cs.subrange(st, self.pos as int).push(c2));
                    self.pos = self.pos + 1;
                    self.cnum = self.cnum + 1;
                }
                let kind = match keyword_by_name(&text) {
                    Some(k) => k,
                    None => TokenKind::Sym,
                };
                proof {
                    assert(punct_kind(ch) is None);
                }
                Some(Token { kind, text: string_of(&text), loc })
            },
            None => {
                self.cnum = self.cnum + 2;
                self.exhausted = true;
                let empty: Vec<char> = Vec::new();
                Some(Token { kind: TokenKind::End, text: string_of(&empty), loc })
            },
        }
    }
}

/// The first position at or after `p` that is not a blank other than a
/// newline.
pub open spec fn skip_spaces(cs: Seq<char>, p: int) -> int
    decreases cs.len() - p,
{
    if 0 <= p < cs.len() && is_white_spec(cs[p]) && cs[p] != '\n' {
        skip_spaces(cs, p + 1)
    } else {
        p
    }
}

/// The position just past the newline that ends the line at `p`, or the
/// end of the input.
pub open spec fn line_end(cs: Seq<char>, p: int) -> int
    decreases cs.len() - p,
{
    if 0 <= p < cs.len() && cs[p] != '\n' {
        line_end(cs, p + 1)
    } else if 0 <= p < cs.len() {
        p + 1
    } else {
        p
    }
}

/// Where the next token starts: past blanks, blank lines and lines that
/// start with `#`.
pub open spec fn token_start(cs: Seq<char>, p: int) -> int
    decreases cs.len() - p,
{
    let q = skip_spaces(cs, p);
    if 0 <= q < cs.len() && (cs[q] == '\n' || cs[q] == '#') && p < line_end(cs, q) <= cs.len() {
        token_start(cs, line_end(cs, q))
    } else {
        q
    }
}

/// The end of the run of alphanumeric characters at `p`.
pub open spec fn word_end(cs: Seq<char>, p: int) -> int
    decreases cs.len() - p,
{
    if 0 <= p < cs.len() && is_alnum_spec(cs[p]) {
        word_end(cs, p + 1)
    } else {
        p
    }
}

/// Newlines among the characters in `[a, b)`.
pub open spec fn newlines(cs: Seq<char>, a: int, b: int) -> int
    decreases b - a,
{
    if b <= a {
        0
    } else {
        newlines(cs, a, b - 1) + (if cs[b - 1] == '\n' { 1int } else { 0 })
    }
}

/// Where the line of position `b` starts, given that the line of `a`
/// starts at `bol`.
pub open spec fn line_start(cs: Seq<char>, a: int, b: int, bol: int) -> int
    decreases b - a,
{
    if b <= a {
        bol
    } else if cs[b - 1] == '\n' {
        b
    } else {
        line_start(cs, a, b - 1, bol)
    }
}

proof fn lemma_skip_spaces(cs: Seq<char>, p: int)
    requires
        0 <= p <= cs.len(),
    ensures
        p <= skip_spaces(cs, p) <= cs.len(),
        skip_spaces(cs, skip_spaces(cs, p)) == skip_spaces(cs, p),
    decreases cs.len() - p,
{
    if p < cs.len() && is_white_spec(cs[p]) && cs[p] != '\n' {
        lemma_skip_spaces(cs, p + 1);
    }
}

proof fn lemma_line_end(cs: Seq<char>, p: int)
    requires
        0 <= p < cs.len(),
    ensures
        p < line_end(cs, p) <= cs.len(),
    decreases cs.len() - p,
{
    if cs[p] != '\n' {
        if p + 1 < cs.len() {
            lemma_line_end(cs, p + 1);
        } else {
            assert(line_end(cs, p + 1) == p + 1);
        }
    }
}

/// Blanks skipped first do not move the start of the next token.
proof fn lemma_token_start_skip(cs: Seq<char>, p: int)
    requires
        0 <= p <= cs.len(),
    ensures
        token_start(cs, skip_spaces(cs, p)) == token_start(cs, p),
{
    lemma_skip_spaces(cs, p);
    let q = skip_spaces(cs, p);
    if 0 <= q < cs.len() && (cs[q] == '\n' || cs[q] == '#') {
        lemma_line_end(cs, q);
    }
}

/// How a kind is named in messages.
pub open spec fn kind_name(k: TokenKind) -> Seq<char> {
    match k {
        TokenKind::Sym => "symbol"@,
        TokenKind::OpenParen => "open paren"@,
        TokenKind::CloseParen => "close paren"@,
        TokenKind::Rule => "`rule`"@,
        TokenKind::Shape => "`shape`"@,
        TokenKind::Apply => "`apply`"@,
        TokenKind::Done => "`done`"@,
        TokenKind::Quit => "`quit`"@,
        TokenKind::Undo => "`undo`"@,
        TokenKind::Comma => "comma"@,
        TokenKind::Colon => "colon"@,
        TokenKind::Equals => "equals"@,
        TokenKind::Invalid => "invalid token"@,
        TokenKind::End => "end of token"@,
    }
}

/// Every kind, in declaration order.
pub open spec fn all_kinds() -> Seq<TokenKind> {
    seq![
        TokenKind::Rule,
        TokenKind::Shape,
        TokenKind::Apply,
        TokenKind::Done,
        TokenKind::Quit,
        TokenKind::Sym,
        TokenKind::OpenParen,
        TokenKind::CloseParen,
        TokenKind::Comma,
        TokenKind::Colon,
        TokenKind::Equals,
        TokenKind::Invalid,
        TokenKind::End,
        TokenKind::Undo,
    ]
}

/// The names of the kinds of `ks` that `set` holds, in order.
pub open spec fn names_in(ks: Seq<TokenKind>, set: Set<TokenKind>) -> Seq<Seq<char>>
    decreases ks.len(),
{
    if ks.len() == 0 {
        Seq::empty()
    } else if set.contains(ks.last()) {
        names_in(ks.drop_last(), set).push(kind_name(ks.last()))
    } else {
        names_in(ks.drop_last(), set)
    }
}

/// The names from `i` on, each after ", " and the last after ", or ".
pub open spec fn rest_of_list(names: Seq<Seq<char>>, i: int) -> Seq<char>
    decreases names.len() - i,
{
    if i < 0 || i >= names.len() {
        Seq::empty()
    } else if i == names.len() - 1 {
        ", or "@ + names[i]
    } else {
        ", "@ + names[i] + rest_of_list(names, i + 1)
    }
}

/// `nothing`, one name, or `a, b, or c`.
pub open spec fn list_text(names: Seq<Seq<char>>) -> Seq<char> {
    if names.len() == 0 {
        "nothing"@
    } else {
        names[0] + rest_of_list(names, 1)
    }
}

impl TokenKind {
    /// How this kind is named in messages.
    pub fn describe(&self) -> (r: &'static str)
        ensures
            r@ == kind_name(*self),
    {
        match self {
            TokenKind::Sym => {
                proof { reveal_strlit("symbol"); }
                "symbol"
            },
            TokenKind::OpenParen => {
                proof { reveal_strlit("open paren"); }
                "open paren"
            },
            TokenKind::CloseParen => {
                proof { reveal_strlit("close paren"); }
                "close paren"
            },
            TokenKind::Rule => {
                proof { reveal_strlit("`rule`"); }
                "`rule`"
            },
            TokenKind::Shape => {
                proof { reveal_strlit("`shape`"); }
                "`shape`"
            },
            TokenKind::Apply => {
                proof { reveal_strlit("`apply`"); }
                "`apply`"
            },
            TokenKind::Done => {
                proof { reveal_strlit("`done`"); }
                "`done`"
            },
            TokenKind::Quit => {
                proof { reveal_strlit("`quit`"); }
                "`quit`"
            },
            TokenKind::Undo => {
                proof { reveal_strlit("`undo`"); }
                "`undo`"
            },
            TokenKind::Comma => {
                proof { reveal_strlit("comma"); }
                "comma"
            },
            TokenKind::Colon => {
                proof { reveal_strlit("colon"); }
                "colon"
            },
            TokenKind::Equals => {
                proof { reveal_strlit("equals"); }
                "equals"
            },
            TokenKind::Invalid => {
                proof { reveal_strlit("invalid token"); }
                "invalid token"
            },
            TokenKind::End => {
                proof { reveal_strlit("end of token"); }
                "end of token"
            },
        }
    }
}

impl TokenKindSet {
    /// The kinds of this set for messages: `nothing`, one name, or
    /// `a, b, or c`, in declaration order.
    pub fn describe(&self) -> (r: String)
        ensures
            r@ == list_text(names_in(all_kinds(), self@)),
    {
        let kinds = [
            TokenKind::Rule,
            TokenKind::Shape,
            TokenKind::Apply,
            TokenKind::Done,
            TokenKind::Quit,
            TokenKind::Sym,
            TokenKind::OpenParen,
            TokenKind::CloseParen,
            TokenKind::Comma,
            TokenKind::Colon,
            TokenKind::Equals,
            TokenKind::Invalid,
            TokenKind::End,
            TokenKind::Undo,
        ];
        assert(kinds@ == all_kinds());
        let mut names: Vec<&'static str> = Vec::new();
        let mut i: usize = 0;
        while i < kinds.len()
            invariant
                i <= kinds@.len(),
                kinds@ == all_kinds(),
                names@.map_values(|n: &str| n@) == names_in(kinds@.take(i as int), self@),
            decreases kinds@.len() - i,
        {
            assert(kinds@.take(i + 1).drop_last() =~= kinds@.take(i as int));
            let k = kinds[i];
            if self.contains(k) {
                let ghost before = names@;
                names.push(k.describe());
                assert(names@.map_values(|n: &str| n@) =~= before.map_values(|n: &str| n@).push(kind_name(k)));
            }
            i = i + 1;
        }
        assert(kinds@.take(i as int) =~= kinds@);
        let ghost ns = names@.map_values(|n: &str| n@);
        let mut out: Vec<char> = Vec::new();
        if names.len() == 0 {
            crate::rewrite::append_chars("nothing", &mut out);
            proof {
                reveal_strlit("nothing");
                assert(out@ =~= "nothing"@);
            }
            return string_of(&out);
        }
        crate::rewrite::append_chars(names[0], &mut out);
        assert(out@ =~= ns[0]);
        let mut j: usize = 1;
        while j < names.len()
            invariant
                1 <= j <= names@.len(),
                ns == names@.map_values(|n: &str| n@),
                ns[0] + rest_of_list(ns, 1) == out@ + rest_of_list(ns, j as int),
            decreases names@.len() - j,
        {
            let ghost before = out@;
            if j == names.len() - 1 {
                crate::rewrite::append_chars(", or ", &mut out);
                proof {
                    reveal_strlit(", or ");
                }
            } else {
                crate::rewrite::append_chars(", ", &mut out);
                proof {
                    reveal_strlit(", ");
                }
            }
            crate::rewrite::append_chars(names[j], &mut out);
            proof {
                assert(ns[j as int] == names@[j as int]@);
                if j == names.len() - 1 {
                    assert(rest_of_list(ns, j as int) == ", or "@ + ns[j as int]);
                    assert(rest_of_list(ns, j + 1) == Seq::<char>::empty());
                    assert(out@ =~= before + (", or "@ + ns[j as int]));
                } else {
                    assert(rest_of_list(ns, j as int) == ", "@ + ns[j as int] + rest_of_list(ns, j + 1));
                    assert(out@ =~= before + (", "@ + ns[j as int]));
                }
            }
            j = j + 1;
        }
        assert(rest_of_list(ns, j as int) == Seq::<char>::empty());
        assert(out@ =~= list_text(ns));
        string_of(&out)
    }
}

/// The decimal digit `d`.
pub open spec fn digit_char(d: nat) -> char {
    ((48 + d) as u8) as char
}

/// The decimal text of `n`.
pub open spec fn decimal(n: nat) -> Seq<char>
    decreases n,
{
    if n < 10 {
        seq![digit_char(n)]
    } else {
        decimal(n / 10).push(digit_char(n % 10))
    }
}

/// Appends the decimal text of `n` to `out`.
pub fn push_decimal(n: usize, out: &mut Vec<char>)
    ensures
        final(out)@ == old(out)@ + decimal(n as nat),
    decreases n,
{
    if n >= 10 {
        push_decimal(n / 10, out);
    }
    let d = (n % 10) as u8;
    out.push((48u8 + d) as char);
    proof {
        if n >= 10 {
            assert(decimal(n as nat) == decimal((n / 10) as nat).push(digit_char((n % 10) as nat)));
        }
    }
}

impl Loc {
    /// `file:row:col`, or `row:col` without a file.
    pub fn describe(&self) -> (r: String)
        ensures
            r@ == match self.file_path {
                Some(p) => p@ + seq![':'] + decimal(self.row as nat) + seq![':'] + decimal(self.col as nat),
                None => decimal(self.row as nat) + seq![':'] + decimal(self.col as nat),
            },
    {
        let mut out: Vec<char> = Vec::new();
        match &self.file_path {
            Some(p) => {
                crate::rewrite::append_chars(p.as_str(), &mut out);
                out.push(':');
            },
            None => {},
        }
        push_decimal(self.row, &mut out);
        out.push(':');
        push_decimal(self.col, &mut out);
        proof {
            match &self.file_path {
                Some(p) => {
                    assert(out@ =~= p@ + seq![':'] + decimal(self.row as nat) + seq![':'] + decimal(self.col as nat));
                },
                None => {
                    assert(out@ =~= decimal(self.row as nat) + seq![':'] + decimal(self.col as nat));
                },
            }
        }
        string_of(&out)
    }
}

} // verus!
