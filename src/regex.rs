//! A tiny regular-expression matcher compiled to a state machine: one
//! column per state, one action per ASCII character (plus the line end).
//! Supports literal characters, `.` (any printable ASCII character), `*`,
//! `+` and a trailing `$`.
use vstd::prelude::*;
use vstd::std_specs::iter::IteratorSpec;

verus! {

/// Actions per column: the ASCII characters and the line end.
pub const FSM_COLUMN_SIZE: usize = 130;

/// The slot of the line end.
pub const FSM_LINE_END: usize = 129;

/// Where a state goes on a character, and whether the input advances.
#[derive(Clone, Copy, Debug, PartialEq, Eq, Structural)]
pub struct FsmAction {
    pub next: usize,
    pub offset: i32,
}

/// The actions of one state.
pub struct FsmColumn {
    pub ts: Vec<FsmAction>,
}

/// A compiled pattern: state 0 rejects, state 1 starts.
pub struct Regex {
    pub cs: Vec<FsmColumn>,
}

impl View for Regex {
    type V = Seq<Seq<FsmAction>>;

    open spec fn view(&self) -> Seq<Seq<FsmAction>> {
        self.cs@.map_values(|c: FsmColumn| c.ts@)
    }
}

/// A column whose every action rejects.
pub open spec fn blank() -> Seq<FsmAction> {
    Seq::new(FSM_COLUMN_SIZE as nat, |i: int| FsmAction { next: 0, offset: 0 })
}

/// Advance to `next` on this character.
pub open spec fn step_to(next: int) -> FsmAction {
    FsmAction { next: next as usize, offset: 1 }
}

/// Printable ASCII.
pub open spec fn printable(i: int) -> bool {
    32 <= i < 127
}

/// `*` on the last column, state `n - 1` of `n`: a match loops on itself,
/// anything else moves on to state `n` without consuming.
pub open spec fn star(col: Seq<FsmAction>, n: int) -> Seq<FsmAction> {
    col.map_values(|t: FsmAction| if t.next == n { FsmAction { next: (n - 1) as usize, offset: t.offset } } else { FsmAction { next: n as usize, offset: 0 } })
}

/// `+` on a copy of the last column, as state `n`: a match loops on
/// itself, anything else moves on to state `n + 1` without consuming.
pub open spec fn plus(col: Seq<FsmAction>, n: int) -> Seq<FsmAction> {
    col.map_values(|t: FsmAction| if t.next == n { t } else { FsmAction { next: (n + 1) as usize, offset: 0 } })
}

/// The machine after one more pattern character.
pub open spec fn compile_step(cs: Seq<Seq<FsmAction>>, c: char) -> Seq<Seq<FsmAction>> {
    let l = cs.len() as int;
    if c == '$' {
        cs.push(blank().update(FSM_LINE_END as int, step_to(l + 1)))
    } else if c == '.' {
        cs.push(Seq::new(FSM_COLUMN_SIZE as nat, |i: int| if printable(i) { step_to(l + 1) } else { FsmAction { next: 0, offset: 0 } }))
    } else if c == '*' {
        cs.update(l - 1, star(cs[l - 1], l))
    } else if c == '+' {
        cs.push(plus(cs[l - 1], l))
    } else {
        cs.push(blank().update((c as u32) as int, step_to(l + 1)))
    }
}

/// The machine for a pattern.
pub open spec fn compile_spec(src: Seq<char>) -> Seq<Seq<FsmAction>>
    decreases src.len(),
{
    if src.len() == 0 {
        seq![blank()]
    } else {
        compile_step(compile_spec(src.drop_last()), src.last())
    }
}

/// `*` and `+` apply to a column whose actions reject or consume a
/// character into the next state; other characters are ASCII or the
/// line-end slot.
pub open spec fn step_ok(cs: Seq<Seq<FsmAction>>, c: char) -> bool {
    if c == '*' || c == '+' {
        cs.len() >= 1 && forall|i: int|
            0 <= i < cs.last().len() ==> (#[trigger] cs.last()[i]).next == 0 || (cs.last()[i].next
                == cs.len() && cs.last()[i].offset == 1)
    } else {
        (c as u32) < FSM_COLUMN_SIZE
    }
}

/// A plain rule for patterns: ASCII characters (or the line-end slot), and
/// no `*` or `+` right after a `*` or `+`.
pub open spec fn simple_pattern(src: Seq<char>) -> bool {
    &&& forall|i: int| 0 <= i < src.len() ==> (#[trigger] src[i] as u32) < FSM_COLUMN_SIZE
    &&& forall|i: int|
        1 <= i < src.len() && (src[i] == '*' || src[i] == '+') ==> !(#[trigger] src[i - 1] == '*' || src[i
            - 1] == '+')
}

/// Every character of the pattern can be compiled.
pub open spec fn supported(src: Seq<char>) -> bool {
    forall|k: int| 0 <= k < src.len() ==> step_ok(compile_spec(#[trigger] src.take(k)), src[k])
}

/// Shape of a machine: full columns, offsets 0 or 1, and an action that
/// does not consume either rejects or moves to a later state.
pub open spec fn fsm_wf(cs: Seq<Seq<FsmAction>>) -> bool {
    &&& cs.len() >= 1
    &&& cs.len() < usize::MAX - 2
    &&& forall|s: int| 0 <= s < cs.len() ==> (#[trigger] cs[s]).len() == FSM_COLUMN_SIZE
    &&& forall|s: int, i: int|
        0 <= s < cs.len() && 0 <= i < FSM_COLUMN_SIZE ==> {
            let t = #[trigger] cs[s][i];
            &&& (t.offset == 0 || t.offset == 1)
            &&& (t.offset == 0 ==> t.next == 0 || t.next > s)
            &&& t.next <= cs.len()
        }
}

/// The state the machine stops in, from `state` at input position `head`.
pub open spec fn run(cs: Seq<Seq<FsmAction>>, s: Seq<char>, state: int, head: int) -> int
    decreases s.len() - head, cs.len() - state,
{
    if !(0 < state < cs.len() && 0 <= head < s.len()) || !((s[head] as u32) < FSM_COLUMN_SIZE) {
        state
    } else {
        let a = cs[state][(s[head] as u32) as int];
        if a.offset == 1 {
            run(cs, s, a.next as int, head + 1)
        } else if a.offset == 0 && a.next > state && a.next <= cs.len() {
            run(cs, s, a.next as int, head)
        } else {
            a.next as int
        }
    }
}

/// Whether the machine accepts `s`: it does not reject, and it ends past
/// its last state, directly or through the line end.
pub open spec fn matches_spec(cs: Seq<Seq<FsmAction>>, s: Seq<char>) -> bool {
    let st = run(cs, s, 1, 0);
    if st == 0 {
        false
    } else if st < cs.len() {
        cs[st][FSM_LINE_END as int].next >= cs.len()
    } else {
        true
    }
}

impl FsmColumn {
    /// A column whose every action rejects.
    pub fn new() -> (r: Self)
        ensures
            r.ts@ == blank(),
    {
        let r = FsmColumn { ts: vec![FsmAction { next: 0, offset: 0 }; FSM_COLUMN_SIZE] };
        assert(r.ts@ =~= blank());
        r
    }
}

proof fn lemma_step_wf(cs: Seq<Seq<FsmAction>>, c: char)
    requires
        fsm_wf(cs),
        step_ok(cs, c),
        cs.len() + 1 < usize::MAX - 2,
    ensures
        fsm_wf(compile_step(cs, c)),
        compile_step(cs, c).len() <= cs.len() + 1,
{
    let l = cs.len() as int;
    let r = compile_step(cs, c);
    if c == '*' {
        assert forall|s: int, i: int| 0 <= s < r.len() && 0 <= i < FSM_COLUMN_SIZE implies {
            let t = #[trigger] r[s][i];
            &&& (t.offset == 0 || t.offset == 1)
            &&& (t.offset == 0 ==> t.next == 0 || t.next > s)
            &&& t.next <= r.len()
        } by {
            if s == l - 1 {
                assert(cs.last()[i] == cs[l - 1][i]);
                assert(cs[l - 1].len() == FSM_COLUMN_SIZE);
            }
        }
    } else if c == '+' {
        assert forall|s: int, i: int| 0 <= s < r.len() && 0 <= i < FSM_COLUMN_SIZE implies {
            let t = #[trigger] r[s][i];
            &&& (t.offset == 0 || t.offset == 1)
            &&& (t.offset == 0 ==> t.next == 0 || t.next > s)
            &&& t.next <= r.len()
        } by {
            if s == l {
                assert(cs.last()[i] == cs[l - 1][i]);
                assert(cs[l - 1].len() == FSM_COLUMN_SIZE);
            }
        }
    }
}

proof fn lemma_supported_prefix(src: Seq<char>, k: int)
    requires
        supported(src),
        0 <= k <= src.len(),
    ensures
        supported(src.take(k)),
{
    assert forall|j: int| 0 <= j < src.take(k).len() implies step_ok(
        compile_spec(#[trigger] src.take(k).take(j)),
        src.take(k)[j],
    ) by {
        assert(src.take(k).take(j) == src.take(j));
        assert(step_ok(compile_spec(src.take(j)), src[j]));
    }
}

proof fn lemma_compile_wf(src: Seq<char>)
    requires
        supported(src),
        src.len() < usize::MAX - 4,
    ensures
        fsm_wf(compile_spec(src)),
        compile_spec(src).len() <= src.len() + 1,
    decreases src.len(),
{
    if src.len() == 0 {
        assert(blank().len() == FSM_COLUMN_SIZE);
    } else {
        let pre = src.drop_last();
        assert forall|k: int| 0 <= k < pre.len() implies step_ok(compile_spec(#[trigger] pre.take(k)), pre[k]) by {
            assert(pre.take(k) == src.take(k));
            assert(pre[k] == src[k]);
        }
        lemma_compile_wf(pre);
        let k = src.len() - 1;
        assert(src.take(k) == pre);
        assert(step_ok(compile_spec(src.take(k)), src[k]));
        lemma_step_wf(compile_spec(pre), src.last());
    }
}

/// After a character other than `*` and `+`, the last column rejects or
/// consumes into the next state.
proof fn lemma_compile_len(src: Seq<char>)
    ensures
        1 <= compile_spec(src).len() <= src.len() + 1,
    decreases src.len(),
{
    if src.len() > 0 {
        lemma_compile_len(src.drop_last());
    }
}

proof fn lemma_last_column(src: Seq<char>)
    requires
        src.len() == 0 || !(src.last() == '*' || src.last() == '+'),
        src.len() < usize::MAX - 4,
        forall|i: int| 0 <= i < src.len() ==> (#[trigger] src[i] as u32) < FSM_COLUMN_SIZE,
    ensures
        ({
            let cs = compile_spec(src);
            &&& cs.len() >= 1
            &&& forall|i: int|
                0 <= i < cs.last().len() ==> (#[trigger] cs.last()[i]).next == 0 || (cs.last()[i].next
                    == cs.len() && cs.last()[i].offset == 1)
        }),
{
    if src.len() > 0 {
        assert(src.last() == src[src.len() - 1]);
        lemma_compile_len(src.drop_last());
        let prev = compile_spec(src.drop_last());
        let l = prev.len() as int;
        assert(compile_spec(src) == compile_step(prev, src.last()));
        assert(compile_spec(src).len() == l + 1);
        assert(step_to(l + 1).next == l + 1);
    }
}

/// Patterns that follow the plain rule can be compiled.
pub proof fn lemma_simple_supported(src: Seq<char>)
    requires
        simple_pattern(src),
        src.len() < usize::MAX - 4,
    ensures
        supported(src),
{
    assert forall|k: int| 0 <= k < src.len() implies step_ok(compile_spec(#[trigger] src.take(k)), src[k]) by {
        if src[k] == '*' || src[k] == '+' {
            let p = src.take(k);
            if k > 0 {
                assert(p.last() == src[k - 1]);
            }
            assert forall|i: int| 0 <= i < p.len() implies (#[trigger] p[i] as u32) < FSM_COLUMN_SIZE by {
                assert(p[i] == src[i]);
            }
            lemma_last_column(p);
        }
    }
}

/// The line-end column of state `l`.
fn line_end_column(l: usize) -> (r: Vec<FsmAction>)
    requires
        l < usize::MAX,
    ensures
        r@ == blank().update(FSM_LINE_END as int, step_to(l + 1)),
{
    let mut col = FsmColumn::new().ts;
    col.set(FSM_LINE_END, FsmAction { next: l + 1, offset: 1 });
    col
}

/// The column of state `l` for a literal character at slot `c`.
fn char_column(c: usize, l: usize) -> (r: Vec<FsmAction>)
    requires
        l < usize::MAX,
        c < FSM_COLUMN_SIZE,
    ensures
        r@ == blank().update(c as int, step_to(l + 1)),
{
    let mut col = FsmColumn::new().ts;
    col.set(c, FsmAction { next: l + 1, offset: 1 });
    col
}

/// The column of state `l` for `.`.
fn any_column(l: usize) -> (r: Vec<FsmAction>)
    requires
        l < usize::MAX,
    ensures
        r@ == Seq::new(FSM_COLUMN_SIZE as nat, |i: int| if printable(i) { step_to(l + 1) } else { FsmAction { next: 0, offset: 0 } }),
{
    let mut col: Vec<FsmAction> = Vec::new();
    let mut i: usize = 0;
    while i < FSM_COLUMN_SIZE
        invariant
            i <= FSM_COLUMN_SIZE,
            l < usize::MAX,
            col@ == Seq::new(i as nat, |k: int| if printable(k) { step_to(l + 1) } else { FsmAction { next: 0, offset: 0 } }),
        decreases FSM_COLUMN_SIZE - i,
    {
        if 32 <= i && i < 127 {
            col.push(FsmAction { next: l + 1, offset: 1 });
        } else {
            col.push(FsmAction { next: 0, offset: 0 });
        }
        i = i + 1;
        assert(col@ =~= Seq::new(i as nat, |k: int| if printable(k) { step_to(l + 1) } else { FsmAction { next: 0, offset: 0 } }));
    }
    col
}

/// `star` on machine integers.
fn star_column(col: &Vec<FsmAction>, n: usize) -> (r: Vec<FsmAction>)
    requires
        n >= 1,
    ensures
        r@ == star(col@, n as int),
{
    let mut out: Vec<FsmAction> = Vec::new();
    let mut i: usize = 0;
    while i < col.len()
        invariant
            i <= col@.len(),
            n >= 1,
            out@ == star(col@.take(i as int), n as int),
        decreases col@.len() - i,
    {
        let t = col[i];
        if t.next == n {
            out.push(FsmAction { next: n - 1, offset: t.offset });
        } else {
            out.push(FsmAction { next: n, offset: 0 });
        }
        i = i + 1;
        assert(out@ =~= star(col@.take(i as int), n as int));
    }
    assert(col@.take(i as int) =~= col@);
    out
}

/// `plus` on machine integers.
fn plus_column(col: &Vec<FsmAction>, n: usize) -> (r: Vec<FsmAction>)
    requires
        n < usize::MAX,
    ensures
        r@ == plus(col@, n as int),
{
    let mut out: Vec<FsmAction> = Vec::new();
    let mut i: usize = 0;
    while i < col.len()
        invariant
            i <= col@.len(),
            n < usize::MAX,
            out@ == plus(col@.take(i as int), n as int),
        decreases col@.len() - i,
    {
        let t = col[i];
        if t.next == n {
            out.push(t);
        } else {
            out.push(FsmAction { next: n + 1, offset: 0 });
        }
        i = i + 1;
        assert(out@ =~= plus(col@.take(i as int), n as int));
    }
    assert(col@.take(i as int) =~= col@);
    out
}

impl Regex {
    /// Compiles a pattern into its state machine.
    pub fn compile(src: &str) -> (r: Self)
        requires
            simple_pattern(src@),
            src@.len() < usize::MAX - 4,
        ensures
            r@ == compile_spec(src@),
            fsm_wf(r@),
    {
        proof {
            lemma_simple_supported(src@);
        }
        let mut fsm = Regex { cs: Vec::new() };
        fsm.cs.push(FsmColumn::new());
        let mut it = src.chars();
        let ghost mut k: int = 0;
        proof {
            broadcast use vstd::string::axiom_spec_iter;

            assert(src@.skip(0) =~= src@);
            assert(src@.take(0) =~= Seq::<char>::empty());
            assert(fsm@ =~= seq![blank()]);
        }
        loop
            invariant
                it.remaining() == src@.skip(k),
                it.obeys_prophetic_iter_laws(),
                0 <= k <= src@.len(),
                src@.len() < usize::MAX - 4,
                supported(src@),
                fsm@ == compile_spec(src@.take(k)),
                fsm.cs@.len() <= k + 1,
            ensures
                fsm@ == compile_spec(src@),
            decreases src@.len() - k,
        {
            proof {
                broadcast use vstd::string::next_postcondition;

            }
            let c = match it.next() {
                Some(c) => c,
                None => {
                    assert(src@.take(k) =~= src@);
                    break;
                },
            };
            let ghost cs0 = fsm@;
            proof {
                assert(src@.skip(k)[0] == src@[k]);
                assert(step_ok(compile_spec(src@.take(k)), src@[k]));
                assert(src@.take(k + 1).drop_last() =~= src@.take(k));
                assert(src@.take(k + 1).last() == c);
                lemma_supported_prefix(src@, k);
                lemma_compile_wf(src@.take(k));
            }
            let l = fsm.cs.len();
            if c == '$' {
                fsm.cs.push(FsmColumn { ts: line_end_column(l) });
                assert(fsm@ =~= compile_step(cs0, c));
            } else if c == '.' {
                fsm.cs.push(FsmColumn { ts: any_column(l) });
                assert(fsm@ =~= compile_step(cs0, c));
            } else if c == '*' {
                let last = fsm.cs.pop();
                match last {
                    Some(col) => {
                        let ghost v0 = fsm.cs@;
                        fsm.cs.push(FsmColumn { ts: star_column(&col.ts, l) });
                        assert(fsm@ =~= cs0.update(l - 1, star(cs0[l - 1], l as int)));
                    },
                    None => {},
                }
            } else if c == '+' {
                assert(fsm.cs@[l - 1].ts@ == cs0[l - 1]);
                let col = plus_column(&fsm.cs[l - 1].ts, l);
                fsm.cs.push(FsmColumn { ts: col });
                assert(fsm@ =~= compile_step(cs0, c));
            } else {
                let code = c as u32;
                fsm.cs.push(FsmColumn { ts: char_column(code as usize, l) });
                assert(fsm@ =~= cs0.push(blank().update((c as u32) as int, step_to(l + 1))));
            }
            proof {
                assert(fsm@ =~= compile_step(cs0, c));
                k = k + 1;
                assert(src@.skip(k - 1).drop_first() =~= src@.skip(k));
            }
        }
        proof {
            lemma_compile_wf(src@);
        }
        fsm
    }

    /// Whether the machine accepts `input`.
    pub fn match_str(&self, input: &str) -> (r: bool)
        requires
            fsm_wf(self@),
            forall|i: int| 0 <= i < input@.len() ==> (#[trigger] input@[i] as u32) < FSM_COLUMN_SIZE,
            input@.len() < usize::MAX,
        ensures
            r == matches_spec(self@, input@),
    {
        let chars = collect_chars(input);
        let n = chars.len();
        let mut state: usize = 1;
        let mut head: usize = 0;
        let ghost cs = self@;
        while 0 < state && state < self.cs.len() && head < n
            invariant
                cs == self@,
                fsm_wf(cs),
                chars@ == input@,
                n == input@.len(),
                head <= n,
                state <= cs.len(),
                run(cs, input@, 1, 0) == run(cs, input@, state as int, head as int),
                forall|i: int| 0 <= i < input@.len() ==> (#[trigger] input@[i] as u32) < FSM_COLUMN_SIZE,
            decreases n - head, if state == 0 { 0 } else { cs.len() - state },
        {
            assert(cs[state as int] == self.cs@[state as int].ts@);
            let ch = chars[head];
            let code = ch as u32;
            let idx = code as usize;
            assert(self.cs@[state as int].ts@.len() == FSM_COLUMN_SIZE);
            let action = self.cs[state].ts[idx];
            assert(action == cs[state as int][(input@[head as int] as u32) as int]);
            state = action.next;
            head = if action.offset == 1 { head + 1 } else { head };
        }
        if state == 0 {
            return false;
        }
        if state < self.cs.len() {
            assert(cs[state as int] == self.cs@[state as int].ts@);
            let action = self.cs[state].ts[FSM_LINE_END];
            state = action.next;
        }
        state >= self.cs.len()
    }
}

/// The characters of `s`, in order.
fn collect_chars(s: &str) -> (r: Vec<char>)
    ensures
        r@ == s@,
{
    let mut out: Vec<char> = Vec::new();
    crate::rewrite::append_chars(s, &mut out);
    assert(out@ =~= s@);
    out
}

} // verus!
