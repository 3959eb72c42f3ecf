use vstd::prelude::*;

use crate::dfa::step_in;
use crate::lexer::Lexer;
use crate::table::{Fed, FeedOutcome, ParseTable};
use crate::{fold_steps, lemma_fold_none, opt_view, sorted_indices, spells_bytes, Constraint};

verus! {

/// A state of the LR(1) oracle: the parser stack, the lexer state of the token
/// being read (`None` when none is), the bytes of that token read so far, and
/// the last token matched within them with its length.
pub struct LR1State {
    pub stack: Vec<usize>,
    pub pending: Vec<u8>,
    pub lex: Option<usize>,
    pub matched: Option<(usize, usize)>,
}

/// The mathematical value of an `LR1State`.
pub struct LR1Model {
    pub stack: Seq<usize>,
    pub pending: Seq<u8>,
    pub lex: Option<usize>,
    pub matched: Option<(usize, usize)>,
}

impl View for LR1State {
    type V = LR1Model;

    open spec fn view(&self) -> LR1Model {
        LR1Model { stack: self.stack@, pending: self.pending@, lex: self.lex, matched: self.matched }
    }
}

pub fn copy_vec<T: Copy>(v: &Vec<T>) -> (r: Vec<T>)
    ensures
        r@ == v@,
{
    let mut r: Vec<T> = Vec::new();
    let mut i: usize = 0;
    while i < v.len()
        invariant
            i <= v@.len(),
            r@ == v@.subrange(0, i as int),
        decreases v@.len() - i,
    {
        r.push(v[i]);
        i = i + 1;
        assert(r@ =~= v@.subrange(0, i as int));
    }
    assert(r@ =~= v@);
    r
}

/// `a[from..] ++ b[from2..]`.
pub fn join_tails(a: &Vec<u8>, from: usize, b: &Vec<u8>, from2: usize) -> (r: Vec<u8>)
    requires
        from <= a@.len(),
        from2 <= b@.len(),
    ensures
        r@ == a@.skip(from as int) + b@.skip(from2 as int),
{
    let mut r: Vec<u8> = Vec::new();
    let mut i: usize = from;
    while i < a.len()
        invariant
            from <= i <= a@.len(),
            r@ == a@.subrange(from as int, i as int),
        decreases a@.len() - i,
    {
        r.push(a[i]);
        i = i + 1;
        assert(r@ =~= a@.subrange(from as int, i as int));
    }
    let mut j: usize = from2;
    while j < b.len()
        invariant
            from2 <= j <= b@.len(),
            r@ == a@.skip(from as int) + b@.subrange(from2 as int, j as int),
        decreases b@.len() - j,
    {
        r.push(b[j]);
        j = j + 1;
        assert(r@ =~= a@.skip(from as int) + b@.subrange(from2 as int, j as int));
    }
    assert(r@ =~= a@.skip(from as int) + b@.skip(from2 as int));
    r
}

impl LR1State {
    pub fn duplicate(&self) -> (r: LR1State)
        ensures
            r@ == self@,
    {
        LR1State {
            stack: copy_vec(&self.stack),
            pending: copy_vec(&self.pending),
            lex: self.lex,
            matched: self.matched,
        }
    }
}

/// The streaming lexer and parser shared by the LR(1) oracles.
pub struct LR1Engine {
    pub table: ParseTable,
    pub lexer: Lexer,
    /// Whether a state is also required to have pending bytes that can still
    /// become a token the parser takes (the exact variant), or only bytes that
    /// the lexer can still extend to a token (the regular variant).
    pub exact: bool,
}

impl LR1Engine {
    pub open spec fn wf(&self) -> bool {
        &&& self.table.wf()
        &&& self.lexer.wf()
        &&& self.lexer.num_tokens() <= self.table.eoi
    }

    /// A state that the engine can work on.
    pub open spec fn model_wf(&self, m: LR1Model) -> bool {
        &&& self.table.stack_wf(m.stack)
        &&& (m.lex is None) == (m.pending.len() == 0)
        &&& (m.lex matches Some(l) ==> l < self.lexer.dfa.num_states())
        &&& (m.matched matches Some((t, len)) ==> t < self.lexer.num_tokens() && 1 <= len <= m.pending.len())
    }

    pub open spec fn start_model(&self) -> LR1Model {
        LR1Model { stack: seq![self.table.start], pending: Seq::empty(), lex: None, matched: None }
    }

    /// The parser stack after the token `t` is committed: unchanged for a
    /// skippable token, else as the parser leaves it when `t` is shifted.
    pub open spec fn commit(&self, stack: Seq<usize>, t: usize) -> Option<Seq<usize>> {
        if self.lexer.skippable@[t as int] {
            Some(stack)
        } else {
            match self.table.feeds(stack, t) {
                Fed::Shifted(s) => Some(s),
                _ => None,
            }
        }
    }

    /// Reads `input` byte by byte. A byte extends the pending token while the
    /// lexer can still match something; once it cannot, the last token matched
    /// is committed and the bytes after it are read again from a fresh lexer.
    pub open spec fn raw(&self, m: LR1Model, input: Seq<u8>) -> Option<LR1Model>
        decreases m.pending.len() + input.len(), input.len(),
    {
        if input.len() == 0 {
            Some(m)
        } else {
            let b = input[0];
            let l0 = match m.lex {
                Some(l) => l,
                None => self.lexer.dfa.start,
            };
            let l1 = step_in(self.lexer.dfa.next@, l0 as nat, b) as usize;
            let grown = m.pending.push(b);
            let m1 = match self.lexer.token@[l1 as int] {
                Some(t) => Some((t, grown.len() as usize)),
                None => m.matched,
            };
            if self.lexer.dfa.live@[l1 as int] {
                self.raw(
                    LR1Model { stack: m.stack, pending: grown, lex: Some(l1), matched: m1 },
                    input.drop_first(),
                )
            } else {
                match m1 {
                    None => None,
                    Some((t, len)) => {
                        if len == 0 || len > grown.len() {
                            None
                        } else {
                            match self.commit(m.stack, t) {
                                None => None,
                                Some(stack2) => self.raw(
                                    LR1Model {
                                        stack: stack2,
                                        pending: Seq::empty(),
                                        lex: None,
                                        matched: None,
                                    },
                                    grown.skip(len as int) + input.drop_first(),
                                ),
                            }
                        }
                    },
                }
            }
        }
    }

    /// The pending bytes can still become a token that the parser takes here.
    pub open spec fn pending_ok(&self, m: LR1Model) -> bool {
        match m.lex {
            None => true,
            Some(l) => exists|t: int|
                0 <= t < self.lexer.num_tokens() && #[trigger] self.lexer.reach@[t]@[l as int] && (
                self.lexer.skippable@[t] || self.table.feeds(m.stack, t as usize) is Shifted),
        }
    }

    /// Appends one byte; `None` when the bytes read cannot be lexed, a committed
    /// token is rejected by the parser, or (exact variant only) the pending bytes
    /// cannot become a token that the parser takes.
    pub open spec fn advance(&self, m: LR1Model, b: u8) -> Option<LR1Model> {
        match self.raw(m, seq![b]) {
            Some(m2) => if !self.exact || self.pending_ok(m2) {
                Some(m2)
            } else {
                None
            },
            None => None,
        }
    }

    /// Appends the bytes of `w` one after the other.
    pub open spec fn run_bytes(&self, m: LR1Model, w: Seq<u8>) -> Option<LR1Model>
        decreases w.len(),
    {
        if w.len() == 0 {
            Some(m)
        } else {
            match self.advance(m, w[0]) {
                Some(m2) => self.run_bytes(m2, w.drop_first()),
                None => None,
            }
        }
    }

    /// The parser stack once the pending token, if any, is committed; `None`
    /// when the pending bytes are no whole token or the parser rejects it.
    pub open spec fn committed_stack(&self, m: LR1Model) -> Option<Seq<usize>> {
        match m.lex {
            None => Some(m.stack),
            Some(l) => match self.lexer.token@[l as int] {
                Some(t) => self.commit(m.stack, t),
                None => None,
            },
        }
    }

    /// Nothing is pending but a whole skippable token.
    pub open spec fn pending_skippable(&self, m: LR1Model) -> bool {
        match m.lex {
            None => true,
            Some(l) => match self.lexer.token@[l as int] {
                Some(t) => self.lexer.skippable@[t as int],
                None => false,
            },
        }
    }

    /// The parser accepts after the pending token is committed and the input ends.
    pub open spec fn accepts_model(&self, m: LR1Model) -> bool {
        match m.lex {
            None => self.table.feeds(m.stack, self.table.eoi) is Accepted,
            Some(l) => match self.lexer.token@[l as int] {
                None => false,
                Some(t) => match self.commit(m.stack, t) {
                    Some(s2) => self.table.feeds(s2, self.table.eoi) is Accepted,
                    None => false,
                },
            },
        }
    }
}

impl LR1Engine {
    pub fn start_state(&self) -> (r: LR1State)
        requires
            self.wf(),
        ensures
            r@ == self.start_model(),
            self.model_wf(r@),
    {
        let mut stack: Vec<usize> = Vec::new();
        stack.push(self.table.start);
        let r = LR1State { stack, pending: Vec::new(), lex: None, matched: None };
        assert(r@.stack =~= seq![self.table.start]);
        assert(r@.pending =~= Seq::<u8>::empty());
        r
    }

    fn commit_exec(&self, stack: &mut Vec<usize>, t: usize) -> (ok: bool)
        requires
            self.wf(),
            self.table.stack_wf(old(stack)@),
            t < self.lexer.num_tokens(),
        ensures
            ok == self.commit(old(stack)@, t) is Some,
            ok ==> self.commit(old(stack)@, t) == Some(final(stack)@),
            self.table.stack_wf(final(stack)@),
    {
        if self.lexer.skippable[t] {
            true
        } else {
            match self.table.feed_terminal(stack, t) {
                FeedOutcome::Shifted => true,
                _ => false,
            }
        }
    }

    /// Reads `input` as `raw` does.
    fn raw_exec(&self, st: &mut LR1State, input: &Vec<u8>) -> (ok: bool)
        requires
            self.wf(),
            self.model_wf(old(st)@),
        ensures
            ok == self.raw(old(st)@, input@) is Some,
            ok ==> self.raw(old(st)@, input@) == Some(final(st)@) && self.model_wf(final(st)@),
    {
        let ghost orig = st@;
        let ghost inp = input@;
        let mut buf = copy_vec(input);
        let mut pos: usize = 0;
        assert(buf@.skip(0) =~= buf@);
        while pos < buf.len()
            invariant
                self.wf(),
                self.model_wf(st@),
                pos <= buf@.len(),
                orig == old(st)@,
                inp == input@,
                self.raw(st@, buf@.skip(pos as int)) == self.raw(orig, inp),
            decreases st@.pending.len() + (buf@.len() - pos), buf@.len() - pos,
        {
            let ghost rest = buf@.skip(pos as int);
            let ghost m = st@;
            assert(rest[0] == buf@[pos as int]);
            assert(rest.drop_first() =~= buf@.skip(pos + 1));
            let b = buf[pos];
            let l0 = match st.lex {
                Some(l) => l,
                None => self.lexer.dfa.start,
            };
            let l1 = self.lexer.dfa.next[l0][b as usize];
            st.pending.push(b);
            let m1 = match self.lexer.token[l1] {
                Some(t) => Some((t, st.pending.len())),
                None => st.matched,
            };
            if self.lexer.dfa.live[l1] {
                st.lex = Some(l1);
                st.matched = m1;
                pos = pos + 1;
            } else {
                match m1 {
                    None => {
                        return false;
                    },
                    Some((t, len)) => {
                        if len == 0 || len > st.pending.len() {
                            return false;
                        }
                        if !self.commit_exec(&mut st.stack, t) {
                            return false;
                        }
                        let nb = join_tails(&st.pending, len, &buf, pos + 1);
                        st.pending = Vec::new();
                        st.lex = None;
                        st.matched = None;
                        buf = nb;
                        pos = 0;
                        assert(st@.pending =~= Seq::<u8>::empty());
                        assert(buf@.skip(0) =~= buf@);
                    },
                }
            }
        }
        assert(buf@.skip(pos as int) =~= Seq::<u8>::empty());
        true
    }

    fn pending_ok_exec(&self, st: &LR1State) -> (r: bool)
        requires
            self.wf(),
            self.model_wf(st@),
        ensures
            r == self.pending_ok(st@),
    {
        match st.lex {
            None => true,
            Some(l) => {
                let nt = self.lexer.skippable.len();
                let mut t: usize = 0;
                while t < nt
                    invariant
                        self.wf(),
                        self.model_wf(st@),
                        st.lex == Some(l),
                        nt == self.lexer.num_tokens(),
                        t <= nt,
                        forall|u: int|
                            0 <= u < t ==> !(#[trigger] self.lexer.reach@[u]@[l as int] && (
                            self.lexer.skippable@[u] || self.table.feeds(st@.stack, u as usize) is Shifted)),
                    decreases nt - t,
                {
                    if self.lexer.reach[t][l] {
                        if self.lexer.skippable[t] {
                            return true;
                        }
                        let mut s = copy_vec(&st.stack);
                        match self.table.feed_terminal(&mut s, t) {
                            FeedOutcome::Shifted => {
                                return true;
                            },
                            _ => {},
                        }
                    }
                    t = t + 1;
                }
                false
            },
        }
    }

    /// Appends one byte, as `advance` does.
    pub fn advance_exec(&self, st: &mut LR1State, b: u8) -> (ok: bool)
        requires
            self.wf(),
            self.model_wf(old(st)@),
        ensures
            ok == self.advance(old(st)@, b) is Some,
            ok ==> self.advance(old(st)@, b) == Some(final(st)@) && self.model_wf(final(st)@),
    {
        let mut one: Vec<u8> = Vec::new();
        one.push(b);
        assert(one@ =~= seq![b]);
        if !self.raw_exec(st, &one) {
            return false;
        }
        !self.exact || self.pending_ok_exec(st)
    }

    /// Appends the bytes of `w`, as `run_bytes` does.
    pub fn run_exec(&self, st: &mut LR1State, w: &[u8]) -> (ok: bool)
        requires
            self.wf(),
            self.model_wf(old(st)@),
        ensures
            ok == self.run_bytes(old(st)@, w@) is Some,
            ok ==> self.run_bytes(old(st)@, w@) == Some(final(st)@) && self.model_wf(final(st)@),
    {
        let ghost orig = st@;
        let mut i: usize = 0;
        assert(w@.skip(0) =~= w@);
        while i < w.len()
            invariant
                self.wf(),
                self.model_wf(st@),
                i <= w@.len(),
                orig == old(st)@,
                self.run_bytes(st@, w@.skip(i as int)) == self.run_bytes(orig, w@),
            decreases w@.len() - i,
        {
            let ghost rest = w@.skip(i as int);
            assert(rest[0] == w@[i as int]);
            assert(rest.drop_first() =~= w@.skip(i + 1));
            if !self.advance_exec(st, w[i]) {
                return false;
            }
            i = i + 1;
        }
        assert(w@.skip(i as int) =~= Seq::<u8>::empty());
        true
    }

    /// The parser stack once the pending token, if any, is committed.
    pub fn committed_stack_exec(&self, st: &LR1State) -> (r: Option<Vec<usize>>)
        requires
            self.wf(),
            self.model_wf(st@),
        ensures
            opt_view(r) == self.committed_stack(st@),
    {
        let mut s = copy_vec(&st.stack);
        match st.lex {
            None => Some(s),
            Some(l) => match self.lexer.token[l] {
                None => None,
                Some(t) => {
                    if self.commit_exec(&mut s, t) {
                        Some(s)
                    } else {
                        None
                    }
                },
            },
        }
    }

    pub fn pending_skippable_exec(&self, st: &LR1State) -> (r: bool)
        requires
            self.wf(),
            self.model_wf(st@),
        ensures
            r == self.pending_skippable(st@),
    {
        match st.lex {
            None => true,
            Some(l) => match self.lexer.token[l] {
                Some(t) => self.lexer.skippable[t],
                None => false,
            },
        }
    }

    pub fn accepts_exec(&self, st: &LR1State) -> (r: bool)
        requires
            self.wf(),
            self.model_wf(st@),
        ensures
            r == self.accepts_model(st@),
    {
        let mut s = copy_vec(&st.stack);
        match st.lex {
            None => {},
            Some(l) => {
                match self.lexer.token[l] {
                    None => {
                        return false;
                    },
                    Some(t) => {
                        if !self.commit_exec(&mut s, t) {
                            return false;
                        }
                    },
                }
            },
        }
        match self.table.feed_terminal(&mut s, self.table.eoi) {
            FeedOutcome::Accepted => true,
            _ => false,
        }
    }
}

/// Why an LR(1) oracle could not be built.
#[derive(Debug, Clone, Copy, PartialEq, Eq, Structural)]
pub enum GrammarError {
    /// The parse table is malformed.
    Table,
    /// The lexer produces a token that the parse table has no column for, or
    /// one that stands for the end of the input.
    Tokens,
}

/// The continuation oracle of a context-free language, given by LR(1) tables and
/// a lexer. A continuation is offered exactly when appending it byte by byte
/// succeeds (see `LR1Engine::advance`).
pub struct LR1GrammarConstraint {
    pub engine: LR1Engine,
    pub continuations: Vec<Vec<u8>>,
}

impl LR1GrammarConstraint {
    pub open spec fn continuation(&self, i: nat) -> Seq<u8> {
        self.continuations@[i as int]@
    }

    /// Builds the oracle from a parse table and a lexer whose tokens are the
    /// table's terminals below its end-of-input terminal; `exact` selects the
    /// variant.
    pub fn new(table: ParseTable, lexer: Lexer, continuations: Vec<Vec<u8>>, exact: bool) -> (r: Result<
        Self,
        GrammarError,
    >)
        requires
            lexer.wf(),
        ensures
            !table.wf() ==> r == Err::<Self, GrammarError>(GrammarError::Table),
            table.wf() && lexer.num_tokens() > table.eoi ==> r == Err::<Self, GrammarError>(
                GrammarError::Tokens,
            ),
            table.wf() && lexer.num_tokens() <= table.eoi ==> (r matches Ok(c) && c.wf()
                && c.engine.table == table && c.engine.lexer == lexer && c.engine.exact == exact
                && c.continuations@ == continuations@),
    {
        if !table.is_well_formed() {
            return Err(GrammarError::Table);
        }
        if lexer.skippable.len() > table.eoi {
            return Err(GrammarError::Tokens);
        }
        Ok(LR1GrammarConstraint { engine: LR1Engine { table, lexer, exact }, continuations })
    }

    /// The input is accepted, and every non-empty continuation that can be taken
    /// commits the pending token and then leaves only skippable text: the input
    /// may stop here.
    pub open spec fn only_skippable(&self, m: LR1Model) -> bool {
        &&& self.engine.accepts_model(m)
        &&& forall|i: nat|
            i < self.continuations@.len() && self.continuation(i).len() > 0 ==> match #[trigger] self.step(
                m,
                i,
            ) {
                Some(m2) => Some(m2.stack) == self.engine.committed_stack(m) && self.engine.pending_skippable(m2),
                None => true,
            }
    }

    pub fn only_skippable_matching(&self, state: &LR1State) -> (r: bool)
        requires
            self.wf(),
            self.is_state(state@),
        ensures
            r == self.only_skippable(state@),
    {
        if !self.engine.accepts_exec(state) {
            return false;
        }
        let committed = self.engine.committed_stack_exec(state);
        let n = self.continuations.len();
        let mut i: usize = 0;
        while i < n
            invariant
                self.wf(),
                self.is_state(state@),
                self.engine.accepts_model(state@),
                opt_view(committed) == self.engine.committed_stack(state@),
                n == self.continuations@.len(),
                i <= n,
                forall|j: nat|
                    j < i && self.continuation(j).len() > 0 ==> match #[trigger] self.step(state@, j) {
                        Some(m2) => Some(m2.stack) == self.engine.committed_stack(state@)
                            && self.engine.pending_skippable(m2),
                        None => true,
                    },
            decreases n - i,
        {
            if self.continuations[i].len() > 0 {
                match self.get_next_state(state, i) {
                    Some(s2) => {
                        if !self.engine.pending_skippable_exec(&s2) {
                            return false;
                        }
                        match &committed {
                            Some(c) => {
                                if !same_stack(&s2.stack, c) {
                                    return false;
                                }
                            },
                            None => {
                                return false;
                            },
                        }
                    },
                    None => {},
                }
            }
            i = i + 1;
        }
        true
    }
}

fn same_stack(a: &Vec<usize>, b: &Vec<usize>) -> (r: bool)
    ensures
        r == (a@ == b@),
{
    if a.len() != b.len() {
        return false;
    }
    let mut i: usize = 0;
    while i < a.len()
        invariant
            a@.len() == b@.len(),
            i <= a@.len(),
            forall|k: int| 0 <= k < i ==> a@[k] == b@[k],
        decreases a@.len() - i,
    {
        if a[i] != b[i] {
            return false;
        }
        i = i + 1;
    }
    assert(a@ =~= b@);
    true
}

impl Constraint for LR1GrammarConstraint {
    type State = LR1State;

    open spec fn wf(&self) -> bool {
        self.engine.wf()
    }

    open spec fn num_continuations(&self) -> nat {
        self.continuations@.len()
    }

    open spec fn is_state(&self, s: LR1Model) -> bool {
        self.engine.model_wf(s)
    }

    open spec fn start(&self) -> LR1Model {
        self.engine.start_model()
    }

    open spec fn state_of(&self, prefix: Seq<u8>) -> Option<LR1Model> {
        self.engine.run_bytes(self.engine.start_model(), prefix)
    }

    open spec fn matching(&self, s: LR1Model) -> bool {
        self.engine.accepts_model(s)
    }

    open spec fn step(&self, s: LR1Model, i: nat) -> Option<LR1Model> {
        self.engine.run_bytes(s, self.continuation(i))
    }

    open spec fn admits(&self, s: LR1Model, i: nat) -> bool {
        self.step(s, i) is Some
    }

    fn get_state(&self, prefix: &[u8]) -> (r: Option<LR1State>) {
        let mut st = self.engine.start_state();
        if self.engine.run_exec(&mut st, prefix) {
            Some(st)
        } else {
            None
        }
    }

    fn get_start_state(&self) -> (r: LR1State) {
        self.engine.start_state()
    }

    fn is_match_state(&self, state: &LR1State) -> (r: bool) {
        self.engine.accepts_exec(state)
    }

    fn get_valid_continuations(&self, state: &LR1State) -> (r: Vec<usize>) {
        let mut r: Vec<usize> = Vec::new();
        let mut i: usize = 0;
        while i < self.continuations.len()
            invariant
                self.wf(),
                self.is_state(state@),
                i <= self.continuations@.len(),
                sorted_indices(r@, self.continuations@.len() as nat),
                forall|k: int| 0 <= k < r@.len() ==> #[trigger] r@[k] < i,
                forall|j: nat| j < i ==> (r@.contains(j as usize) <==> self.admits(state@, j)),
            decreases self.continuations@.len() - i,
        {
            let ghost r0 = r@;
            if self.get_next_state(state, i).is_some() {
                r.push(i);
                proof {
                    assert forall|j: nat| j <= i implies (r@.contains(j as usize) <==> self.admits(
                        state@,
                        j,
                    )) by {
                        if j < i {
                            if r0.contains(j as usize) {
                                let k = choose|k: int| 0 <= k < r0.len() && r0[k] == j as usize;
                                assert(r@[k] == j as usize);
                            }
                            if r@.contains(j as usize) {
                                let k = choose|k: int| 0 <= k < r@.len() && r@[k] == j as usize;
                                assert(k < r0.len());
                                assert(r0[k] == j as usize);
                            }
                        } else {
                            assert(r@[r0.len() as int] == i);
                        }
                    }
                }
            } else {
                proof {
                    assert(!r@.contains(i));
                }
            }
            i = i + 1;
        }
        r
    }

    fn get_next_state(&self, state: &LR1State, continuation: usize) -> (r: Option<LR1State>) {
        let mut st = state.duplicate();
        if self.engine.run_exec(&mut st, self.continuations[continuation].as_slice()) {
            Some(st)
        } else {
            None
        }
    }
}

/// Every prefix of an input that is read without failure is read without failure.
pub proof fn lemma_run_bytes_prefix(e: &LR1Engine, m: LR1Model, u: Seq<u8>, v: Seq<u8>)
    requires
        e.run_bytes(m, u + v) is Some,
    ensures
        e.run_bytes(m, u) is Some,
    decreases u.len(),
{
    if u.len() > 0 {
        assert((u + v)[0] == u[0]);
        assert((u + v).drop_first() =~= u.drop_first() + v);
        let m2 = e.advance(m, u[0]).unwrap();
        lemma_run_bytes_prefix(e, m2, u.drop_first(), v);
    }
}

proof fn lemma_raw_same(e1: &LR1Engine, e2: &LR1Engine, m: LR1Model, input: Seq<u8>)
    requires
        e1.table == e2.table,
        e1.lexer == e2.lexer,
    ensures
        e1.raw(m, input) == e2.raw(m, input),
    decreases m.pending.len() + input.len(), input.len(),
{
    if input.len() > 0 {
        let b = input[0];
        let l0 = match m.lex {
            Some(l) => l,
            None => e1.lexer.dfa.start,
        };
        let l1 = step_in(e1.lexer.dfa.next@, l0 as nat, b) as usize;
        let grown = m.pending.push(b);
        let m1 = match e1.lexer.token@[l1 as int] {
            Some(t) => Some((t, grown.len() as usize)),
            None => m.matched,
        };
        if e1.lexer.dfa.live@[l1 as int] {
            lemma_raw_same(
                e1,
                e2,
                LR1Model { stack: m.stack, pending: grown, lex: Some(l1), matched: m1 },
                input.drop_first(),
            );
        } else {
            match m1 {
                None => {},
                Some((t, len)) => {
                    if len == 0 || len > grown.len() {
                    } else {
                        match e1.commit(m.stack, t) {
                            None => {},
                            Some(stack2) => {
                                lemma_raw_same(
                                    e1,
                                    e2,
                                    LR1Model {
                                        stack: stack2,
                                        pending: Seq::empty(),
                                        lex: None,
                                        matched: None,
                                    },
                                    grown.skip(len as int) + input.drop_first(),
                                );
                            },
                        }
                    }
                },
            }
        }
    }
}

/// Reading `u` and then `v` is reading `u + v`.
pub proof fn lemma_raw_concat(e: &LR1Engine, m: LR1Model, u: Seq<u8>, v: Seq<u8>)
    ensures
        e.raw(m, u + v) == match e.raw(m, u) {
            Some(m1) => e.raw(m1, v),
            None => None,
        },
    decreases m.pending.len() + u.len(), u.len(),
{
    if u.len() == 0 {
        assert(u + v =~= v);
    } else {
        let b = u[0];
        assert((u + v)[0] == b);
        assert((u + v).drop_first() =~= u.drop_first() + v);
        let l0 = match m.lex {
            Some(l) => l,
            None => e.lexer.dfa.start,
        };
        let l1 = step_in(e.lexer.dfa.next@, l0 as nat, b) as usize;
        let grown = m.pending.push(b);
        let m1 = match e.lexer.token@[l1 as int] {
            Some(t) => Some((t, grown.len() as usize)),
            None => m.matched,
        };
        if e.lexer.dfa.live@[l1 as int] {
            lemma_raw_concat(
                e,
                LR1Model { stack: m.stack, pending: grown, lex: Some(l1), matched: m1 },
                u.drop_first(),
                v,
            );
        } else {
            match m1 {
                None => {},
                Some((t, len)) => {
                    if len == 0 || len > grown.len() {
                    } else {
                        match e.commit(m.stack, t) {
                            None => {},
                            Some(stack2) => {
                                let rest = grown.skip(len as int) + u.drop_first();
                                assert(grown.skip(len as int) + (u.drop_first() + v) =~= rest + v);
                                lemma_raw_concat(
                                    e,
                                    LR1Model {
                                        stack: stack2,
                                        pending: Seq::empty(),
                                        lex: None,
                                        matched: None,
                                    },
                                    rest,
                                    v,
                                );
                            },
                        }
                    }
                },
            }
        }
    }
}

/// After a non-empty input is read, some bytes are pending.
pub proof fn lemma_raw_pending(e: &LR1Engine, m: LR1Model, u: Seq<u8>)
    requires
        e.wf(),
        u.len() > 0,
        m.lex matches Some(l) ==> l < e.lexer.dfa.num_states(),
        m.matched matches Some((t, len)) ==> len <= m.pending.len(),
        e.raw(m, u) is Some,
    ensures
        e.raw(m, u).unwrap().pending.len() > 0,
    decreases m.pending.len() + u.len(), u.len(),
{
    let b = u[0];
    let l0 = match m.lex {
        Some(l) => l,
        None => e.lexer.dfa.start,
    };
    let l1 = step_in(e.lexer.dfa.next@, l0 as nat, b) as usize;
    let grown = m.pending.push(b);
    let m1 = match e.lexer.token@[l1 as int] {
        Some(t) => Some((t, grown.len() as usize)),
        None => m.matched,
    };
    if e.lexer.dfa.live@[l1 as int] {
        let n = LR1Model { stack: m.stack, pending: grown, lex: Some(l1), matched: m1 };
        if u.len() > 1 {
            lemma_raw_pending(e, n, u.drop_first());
        } else {
            assert(u.drop_first().len() == 0);
        }
    } else {
        match m1 {
            None => {},
            Some((t, len)) => {
                if len == 0 || len > grown.len() {
                } else {
                    match e.commit(m.stack, t) {
                        None => {},
                        Some(stack2) => {
                            let rest = grown.skip(len as int) + u.drop_first();
                            assert(l0 < e.lexer.dfa.num_states());
                            assert(l1 < e.lexer.dfa.num_states());
                            if e.lexer.token@[l1 as int] is Some {
                                assert(e.lexer.dfa.accepting@[l1 as int]);
                                assert(crate::dfa::run_in(e.lexer.dfa.next@, l1 as nat, Seq::<u8>::empty())
                                    == l1 as nat);
                                assert(e.lexer.dfa.can_accept(l1 as nat));
                            }
                            assert(len < grown.len());
                            lemma_raw_pending(
                                e,
                                LR1Model { stack: stack2, pending: Seq::empty(), lex: None, matched: None },
                                rest,
                            );
                        },
                    }
                }
            },
        }
    }
}

/// Reading byte by byte without failure reads the whole input to the same state.
pub proof fn lemma_run_bytes_raw(e: &LR1Engine, m: LR1Model, w: Seq<u8>)
    requires
        e.run_bytes(m, w) is Some,
    ensures
        e.raw(m, w) == e.run_bytes(m, w),
    decreases w.len(),
{
    if w.len() > 0 {
        let m1 = e.advance(m, w[0]).unwrap();
        lemma_run_bytes_raw(e, m1, w.drop_first());
        assert(seq![w[0]] + w.drop_first() =~= w);
        lemma_raw_concat(e, m, seq![w[0]], w.drop_first());
    } else {
        assert(e.raw(m, w) == Some(m));
    }
}

proof fn lemma_exact_run_in_regular(e1: &LR1Engine, e2: &LR1Engine, m: LR1Model, w: Seq<u8>)
    requires
        e1.table == e2.table,
        e1.lexer == e2.lexer,
        e1.exact,
        !e2.exact,
        e1.run_bytes(m, w) is Some,
    ensures
        e2.run_bytes(m, w) == e1.run_bytes(m, w),
    decreases w.len(),
{
    if w.len() > 0 {
        lemma_raw_same(e1, e2, m, seq![w[0]]);
        let m2 = e1.advance(m, w[0]).unwrap();
        lemma_exact_run_in_regular(e1, e2, m2, w.drop_first());
    }
}

/// Over the same tables, lexer and vocabulary, every continuation that the
/// exact variant offers is offered by the regular one, leading to the same state.
pub proof fn lemma_exact_within_regular(
    exact: &LR1GrammarConstraint,
    regular: &LR1GrammarConstraint,
    s: LR1Model,
    i: nat,
)
    requires
        exact.engine.table == regular.engine.table,
        exact.engine.lexer == regular.engine.lexer,
        exact.continuations@ == regular.continuations@,
        exact.engine.exact,
        !regular.engine.exact,
        i < exact.num_continuations(),
        exact.admits(s, i),
    ensures
        regular.admits(s, i),
        regular.step(s, i) == exact.step(s, i),
{
    lemma_exact_run_in_regular(&exact.engine, &regular.engine, s, exact.continuation(i));
}

/// When some accepted input begins with continuation `i`, that continuation
/// is offered at the start.
pub proof fn lemma_lr1_start_valid(c: &LR1GrammarConstraint, w: Seq<u8>, i: nat)
    requires
        c.wf(),
        i < c.num_continuations(),
        c.state_of(w) matches Some(m) && c.matching(m),
        c.continuation(i).len() <= w.len(),
        w.take(c.continuation(i).len() as int) == c.continuation(i),
    ensures
        c.admits(c.start(), i),
{
    let u = c.continuation(i);
    let v = w.skip(u.len() as int);
    assert(u + v =~= w);
    lemma_run_bytes_prefix(&c.engine, c.engine.start_model(), u, v);
}

/// Every continuation offered can be taken.
pub proof fn lemma_lr1_extension_sound(c: &LR1GrammarConstraint, s: LR1Model, i: nat)
    requires
        c.wf(),
        c.is_state(s),
        i < c.num_continuations(),
        c.admits(s, i),
    ensures
        c.step(s, i) is Some,
{
}

/// Every continuation that can be taken is offered.
pub proof fn lemma_lr1_extension_complete(c: &LR1GrammarConstraint, s: LR1Model, i: nat)
    requires
        c.wf(),
        c.is_state(s),
        i < c.num_continuations(),
        c.step(s, i) is Some,
    ensures
        c.admits(s, i),
{
}

proof fn lemma_lr1_fold_from(c: &LR1GrammarConstraint, m: LR1Model, idx: Seq<usize>, w: Seq<u8>)
    requires
        spells_bytes(c.continuations@, idx, w),
    ensures
        fold_steps(c, Some(m), idx) == c.engine.run_bytes(m, w),
    decreases w.len(),
{
    if w.len() > 0 {
        let b = w[0];
        assert(c.continuation(idx[0] as nat) == seq![b]);
        assert(seq![b][0] == b);
        assert(seq![b].drop_first() =~= Seq::<u8>::empty());
        let rest = idx.drop_first();
        assert(spells_bytes(c.continuations@, rest, w.drop_first())) by {
            assert forall|k: int| 0 <= k < rest.len() implies c.continuations@[rest[k] as int]@ == seq![
                #[trigger] w.drop_first()[k],
            ] by {
                assert(rest[k] == idx[k + 1]);
                assert(w.drop_first()[k] == w[k + 1]);
            }
        }
        match c.engine.advance(m, b) {
            Some(m2) => {
                assert(c.engine.run_bytes(m2, Seq::<u8>::empty()) == Some(m2));
                lemma_lr1_fold_from(c, m2, rest, w.drop_first());
            },
            None => {
                lemma_fold_none(c, rest);
            },
        }
    }
}

/// Reading a prefix at once gives the state reached by appending its bytes as
/// single-byte continuations one by one.
pub proof fn lemma_lr1_state_determinism(c: &LR1GrammarConstraint, w: Seq<u8>, idx: Seq<usize>)
    requires
        c.wf(),
        spells_bytes(c.continuations@, idx, w),
    ensures
        fold_steps(c, Some(c.start()), idx) == c.state_of(w),
{
    lemma_lr1_fold_from(c, c.engine.start_model(), idx, w);
}

/// An empty continuation is offered in every state and leaves it as it is.
pub proof fn lemma_lr1_empty_continuation(c: &LR1GrammarConstraint, s: LR1Model, e: nat)
    requires
        c.wf(),
        c.is_state(s),
        e < c.num_continuations(),
        c.continuation(e).len() == 0,
    ensures
        c.admits(s, e),
        c.step(s, e) == Some(s),
{
}

/// Committing a skippable token leaves the parser stack as it is.
pub proof fn lemma_skippable_commit_keeps_stack(e: &LR1Engine, stack: Seq<usize>, t: usize)
    requires
        e.wf(),
        t < e.lexer.num_tokens(),
        e.lexer.skippable@[t as int],
    ensures
        e.commit(stack, t) == Some(stack),
{
}

/// When the input may stop here, it is accepted, and every non-empty
/// continuation that can be taken only commits the pending token and adds
/// skippable text: no grammar token follows.
pub proof fn lemma_only_skippable(c: &LR1GrammarConstraint, s: LR1Model, i: nat)
    requires
        c.wf(),
        c.is_state(s),
        c.only_skippable(s),
        i < c.num_continuations(),
        c.continuation(i).len() > 0,
        c.admits(s, i),
    ensures
        c.matching(s),
        c.step(s, i) matches Some(m2) && Some(m2.stack) == c.engine.committed_stack(s)
            && c.engine.pending_skippable(m2),
{
    assert(match c.step(s, i) {
        Some(m2) => Some(m2.stack) == c.engine.committed_stack(s) && c.engine.pending_skippable(m2),
        None => true,
    });
}

} // verus!
