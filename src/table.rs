use vstd::prelude::*;

verus! {

/// An entry of the ACTION table.
#[derive(Clone, Copy, Debug, PartialEq, Eq, Structural)]
pub enum Action {
    Shift(usize),
    Reduce(usize),
    Accept,
    Error,
}

/// A production `lhs -> α`, of which the parser only needs the left-hand side and `|α|`.
#[derive(Clone, Copy, Debug, PartialEq, Eq, Structural)]
pub struct Rule {
    pub lhs: usize,
    pub len: usize,
}

/// The most reductions one token may cause before it is shifted: as many as
/// a `usize` counts, so that only a table whose reductions never end hits it.
pub const REDUCTION_LIMIT: usize = usize::MAX;

/// What feeding one terminal to the parser leads to.
pub enum Fed {
    Shifted(Seq<usize>),
    Accepted,
    Failed,
}

/// The exec counterpart of `Fed`; the new stack is handed back separately.
#[derive(Clone, Copy, Debug, PartialEq, Eq, Structural)]
pub enum FeedOutcome {
    Shifted,
    Accepted,
    Failed,
}

/// LR(1) ACTION and GOTO tables with the rules they reduce by.
pub struct ParseTable {
    /// `action[state][terminal]`.
    pub action: Vec<Vec<Action>>,
    /// `goto[state][nonterminal]`.
    pub goto: Vec<Vec<Option<usize>>>,
    pub rules: Vec<Rule>,
    pub start: usize,
    /// The terminal standing for the end of the input.
    pub eoi: usize,
    pub num_terminals: usize,
    pub num_nonterminals: usize,
}

impl ParseTable {
    pub open spec fn num_states(&self) -> nat {
        self.action@.len()
    }

    pub open spec fn wf(&self) -> bool {
        &&& self.start < self.action@.len()
        &&& self.goto@.len() == self.action@.len()
        &&& self.eoi < self.num_terminals
        &&& forall|q: int| 0 <= q < self.action@.len() ==> (#[trigger] self.action@[q]@).len() == self.num_terminals
        &&& forall|q: int| 0 <= q < self.goto@.len() ==> (#[trigger] self.goto@[q]@).len() == self.num_nonterminals
        &&& forall|q: int, t: int|
            0 <= q < self.action@.len() && 0 <= t < self.num_terminals ==> match #[trigger] self.action@[q]@[t] {
                Action::Shift(s) => s < self.action@.len(),
                Action::Reduce(r) => r < self.rules@.len(),
                _ => true,
            }
        &&& forall|q: int, a: int|
            0 <= q < self.goto@.len() && 0 <= a < self.num_nonterminals ==> match #[trigger] self.goto@[q]@[a] {
                Some(g) => g < self.action@.len(),
                None => true,
            }
        &&& forall|r: int| 0 <= r < self.rules@.len() ==> (#[trigger] self.rules@[r]).lhs < self.num_nonterminals
    }

    /// A parser stack of this table: not empty, and made of its states.
    pub open spec fn stack_wf(&self, stack: Seq<usize>) -> bool {
        &&& stack.len() >= 1
        &&& forall|k: int| 0 <= k < stack.len() ==> (#[trigger] stack[k]) < self.num_states()
    }

    /// Feeds terminal `t` to the parser with stack `stack`, reducing until `t` is
    /// shifted or accepted, or the table reports an error; `fuel` bounds the
    /// number of reductions. Acceptance counts only with the start state and one
    /// state above it on the stack, where the whole input has become one symbol.
    pub open spec fn feed(&self, stack: Seq<usize>, t: usize, fuel: nat) -> Fed
        decreases fuel,
    {
        if fuel == 0 || stack.len() == 0 {
            Fed::Failed
        } else {
            match self.action@[stack.last() as int]@[t as int] {
                Action::Shift(s) => Fed::Shifted(stack.push(s)),
                Action::Accept => if stack.len() == 2 {
                    Fed::Accepted
                } else {
                    Fed::Failed
                },
                Action::Error => Fed::Failed,
                Action::Reduce(r) => {
                    let rule = self.rules@[r as int];
                    if rule.len >= stack.len() {
                        Fed::Failed
                    } else {
                        let base = stack.subrange(0, stack.len() - rule.len);
                        match self.goto@[base.last() as int]@[rule.lhs as int] {
                            Some(g) => self.feed(base.push(g), t, (fuel - 1) as nat),
                            None => Fed::Failed,
                        }
                    }
                },
            }
        }
    }

    pub open spec fn feeds(&self, stack: Seq<usize>, t: usize) -> Fed {
        self.feed(stack, t, REDUCTION_LIMIT as nat)
    }

    /// Checks the table's well-formedness.
    pub fn is_well_formed(&self) -> (r: bool)
        ensures
            r == self.wf(),
    {
        let n = self.action.len();
        if self.start >= n || self.goto.len() != n || self.eoi >= self.num_terminals {
            return false;
        }
        let nr = self.rules.len();
        let mut r: usize = 0;
        while r < nr
            invariant
                nr == self.rules@.len(),
                r <= nr,
                forall|k: int| 0 <= k < r ==> (#[trigger] self.rules@[k]).lhs < self.num_nonterminals,
            decreases nr - r,
        {
            if self.rules[r].lhs >= self.num_nonterminals {
                return false;
            }
            r = r + 1;
        }
        let mut q: usize = 0;
        while q < n
            invariant
                n == self.action@.len(),
                nr == self.rules@.len(),
                self.start < n,
                self.goto@.len() == n,
                self.eoi < self.num_terminals,
                forall|k: int| 0 <= k < nr ==> (#[trigger] self.rules@[k]).lhs < self.num_nonterminals,
                q <= n,
                forall|p: int| 0 <= p < q ==> (#[trigger] self.action@[p]@).len() == self.num_terminals,
                forall|p: int| 0 <= p < q ==> (#[trigger] self.goto@[p]@).len() == self.num_nonterminals,
                forall|p: int, t: int|
                    0 <= p < q && 0 <= t < self.num_terminals ==> match #[trigger] self.action@[p]@[t] {
                        Action::Shift(s) => s < n,
                        Action::Reduce(x) => x < nr,
                        _ => true,
                    },
                forall|p: int, a: int|
                    0 <= p < q && 0 <= a < self.num_nonterminals ==> match #[trigger] self.goto@[p]@[a] {
                        Some(g) => g < n,
                        None => true,
                    },
            decreases n - q,
        {
            let row = &self.action[q];
            if row.len() != self.num_terminals {
                return false;
            }
            let mut t: usize = 0;
            while t < self.num_terminals
                invariant
                    n == self.action@.len(),
                    nr == self.rules@.len(),
                    q < n,
                    *row == self.action@[q as int],
                    row@.len() == self.num_terminals,
                    t <= self.num_terminals,
                    forall|u: int| 0 <= u < t ==> match #[trigger] row@[u] {
                        Action::Shift(s) => s < n,
                        Action::Reduce(x) => x < nr,
                        _ => true,
                    },
                decreases self.num_terminals - t,
            {
                match row[t] {
                    Action::Shift(s) => {
                        if s >= n {
                            return false;
                        }
                    },
                    Action::Reduce(x) => {
                        if x >= nr {
                            return false;
                        }
                    },
                    _ => {},
                }
                t = t + 1;
            }
            let grow = &self.goto[q];
            if grow.len() != self.num_nonterminals {
                return false;
            }
            let mut a: usize = 0;
            while a < self.num_nonterminals
                invariant
                    n == self.action@.len(),
                    self.goto@.len() == n,
                    q < n,
                    *grow == self.goto@[q as int],
                    grow@.len() == self.num_nonterminals,
                    a <= self.num_nonterminals,
                    forall|u: int| 0 <= u < a ==> match #[trigger] grow@[u] {
                        Some(g) => g < n,
                        None => true,
                    },
                decreases self.num_nonterminals - a,
            {
                match grow[a] {
                    Some(g) => {
                        if g >= n {
                            return false;
                        }
                    },
                    None => {},
                }
                a = a + 1;
            }
            q = q + 1;
        }
        true
    }

    /// Feeds `t` to the parser, changing `stack` as the parser does when `t` is shifted.
    pub fn feed_terminal(&self, stack: &mut Vec<usize>, t: usize) -> (r: FeedOutcome)
        requires
            self.wf(),
            self.stack_wf(old(stack)@),
            t < self.num_terminals,
        ensures
            match self.feeds(old(stack)@, t) {
                Fed::Shifted(s) => r == FeedOutcome::Shifted && final(stack)@ == s,
                Fed::Accepted => r == FeedOutcome::Accepted,
                Fed::Failed => r == FeedOutcome::Failed,
            },
            self.stack_wf(final(stack)@),
    {
        let ghost orig = stack@;
        let mut fuel: usize = REDUCTION_LIMIT;
        while fuel > 0
            invariant
                self.wf(),
                self.stack_wf(stack@),
                t < self.num_terminals,
                orig == old(stack)@,
                self.feed(stack@, t, fuel as nat) == self.feeds(orig, t),
            decreases fuel,
        {
            let top = stack[stack.len() - 1];
            let act = self.action[top][t];
            assert(act == self.action@[stack@.last() as int]@[t as int]);
            match act {
                Action::Shift(s) => {
                    assert(self.feed(stack@, t, fuel as nat) == Fed::Shifted(stack@.push(s)));
                    stack.push(s);
                    return FeedOutcome::Shifted;
                },
                Action::Accept => {
                    if stack.len() == 2 {
                        return FeedOutcome::Accepted;
                    }
                    return FeedOutcome::Failed;
                },
                Action::Error => {
                    return FeedOutcome::Failed;
                },
                Action::Reduce(r) => {
                    let rule = self.rules[r];
                    if rule.len >= stack.len() {
                        return FeedOutcome::Failed;
                    }
                    let keep = stack.len() - rule.len;
                    let ghost base = stack@.subrange(0, keep as int);
                    stack.truncate(keep);
                    assert(stack@ == base);
                    let g = match self.goto[stack[keep - 1]][rule.lhs] {
                        Some(g) => g,
                        None => {
                            return FeedOutcome::Failed;
                        },
                    };
                    stack.push(g);
                    fuel = fuel - 1;
                },
            }
        }
        FeedOutcome::Failed
    }
}

} // verus!
