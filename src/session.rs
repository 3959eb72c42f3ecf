use vstd::prelude::*;

use crate::compile::{dense_builds, dense_state_count, CompileError, MAX_STATES};
use crate::prefix_index::{total_len, vocab_view};
use crate::cache::{key_view, lru_cap, lru_entries, lru_get, lru_new, lru_put, KeyView, StateCache};
use crate::lexer::Lexer;
use crate::lr1::{copy_vec, GrammarError, LR1GrammarConstraint, LR1Model, LR1State};
use crate::table::ParseTable;
use crate::regex::RegularExpressionConstraint;
use crate::{sorted_indices, Constraint};

verus! {

/// Why a session could not be moved to a prefix.
#[derive(Debug, Clone, Copy, PartialEq, Eq, Structural)]
pub enum SessionError {
    /// No accepted input begins with the prefix.
    InvalidPrefix,
}

/// `r` lists, in increasing order, the continuations that `c` offers in `s`.
pub open spec fn lists_valid<C: Constraint>(c: &C, s: <C::State as View>::V, r: Seq<usize>) -> bool {
    &&& sorted_indices(r, c.num_continuations())
    &&& forall|i: nat| i < c.num_continuations() ==> (r.contains(i as usize) <==> c.admits(s, i))
}

fn copy_indices(v: &Vec<usize>) -> (r: Vec<usize>)
    ensures
        r@ == v@,
{
    crate::lr1::copy_vec(v)
}

/// A generation session over a regular expression: the current state with its
/// continuations, and whether the last step failed.
pub struct RegexConstraint {
    pub constraint: RegularExpressionConstraint,
    pub state: usize,
    pub indices: Vec<usize>,
    pub matching: bool,
    pub invalid: bool,
}

impl RegexConstraint {
    pub open spec fn inv(&self) -> bool {
        &&& self.constraint.wf()
        &&& self.constraint.is_state(self.state)
        &&& lists_valid(&self.constraint, self.state, self.indices@)
        &&& self.matching == self.constraint.matching(self.state)
    }

    pub fn init(constraint: RegularExpressionConstraint) -> (r: Self)
        requires
            constraint.wf(),
        ensures
            r.inv(),
            r.constraint == constraint,
            r.state == constraint.start(),
            !r.invalid,
    {
        let state = constraint.get_start_state();
        let indices = constraint.get_valid_continuations(&state);
        let matching = constraint.is_match_state(&state);
        RegexConstraint { constraint, state, indices, matching, invalid: false }
    }

    pub fn new(regex: &str, continuations: Vec<Vec<u8>>) -> (r: Result<Self, CompileError>)
        ensures
            r matches Ok(s) ==> s.inv() && !s.invalid && s.state == s.constraint.start()
                && s.constraint.continuations@ == continuations@,
            !dense_builds(seq![regex@]) ==> r == Err::<Self, CompileError>(CompileError::Syntax),
            dense_builds(seq![regex@]) && dense_state_count(seq![regex@]) <= MAX_STATES && total_len(
                vocab_view(continuations@),
            ) + 1 < usize::MAX ==> r is Ok,
    {
        match RegularExpressionConstraint::new(regex, continuations) {
            Ok(c) => Ok(Self::init(c)),
            Err(e) => Err(e),
        }
    }

    /// Moves to the state after `prefix` (the start when `None`); fails, changing
    /// nothing, when no accepted input begins with it.
    pub fn reset(&mut self, prefix: Option<Vec<u8>>) -> (r: Result<(), SessionError>)
        requires
            old(self).inv(),
        ensures
            final(self).inv(),
            final(self).constraint == old(self).constraint,
            ({
                let p = match prefix {
                    Some(v) => v@,
                    None => Seq::<u8>::empty(),
                };
                match old(self).constraint.state_of(p) {
                    Some(s) => r is Ok && final(self).state == s && !final(self).invalid,
                    None => r == Err::<(), SessionError>(SessionError::InvalidPrefix) && *final(self)
                        == *old(self),
                }
            }),
    {
        let p = match prefix {
            Some(v) => v,
            None => Vec::new(),
        };
        match self.constraint.get_state(p.as_slice()) {
            None => Err(SessionError::InvalidPrefix),
            Some(s) => {
                self.state = s;
                self.indices = self.constraint.get_valid_continuations(&s);
                self.matching = self.constraint.is_match_state(&s);
                self.invalid = false;
                Ok(())
            },
        }
    }

    /// The continuations offered in the current state.
    pub fn get(&self) -> (r: Vec<usize>)
        requires
            self.inv(),
        ensures
            lists_valid(&self.constraint, self.state, r@),
    {
        copy_indices(&self.indices)
    }

    /// The last step failed, or nothing can follow and the input is not accepted.
    pub fn is_invalid(&self) -> (r: bool)
        ensures
            r == (self.invalid || (self.indices@.len() == 0 && !self.matching)),
    {
        self.invalid || (self.indices.len() == 0 && !self.matching)
    }

    pub fn is_match(&self) -> (r: bool)
        requires
            self.inv(),
        ensures
            r == self.constraint.matching(self.state),
    {
        self.matching
    }

    /// Appends continuation `index`; when it cannot be taken, the state stays
    /// and the session is marked invalid.
    pub fn next(&mut self, index: usize)
        requires
            old(self).inv(),
            index < old(self).constraint.num_continuations(),
        ensures
            final(self).inv(),
            final(self).constraint == old(self).constraint,
            match old(self).constraint.step(old(self).state, index as nat) {
                Some(s) => final(self).state == s && final(self).invalid == old(self).invalid,
                None => final(self).state == old(self).state && final(self).invalid
                    && final(self).indices@ == old(self).indices@ && final(self).matching
                    == old(self).matching,
            },
    {
        match self.constraint.get_next_state(&self.state, index) {
            None => {
                self.invalid = true;
            },
            Some(s) => {
                self.state = s;
                self.indices = self.constraint.get_valid_continuations(&s);
                self.matching = self.constraint.is_match_state(&s);
            },
        }
    }
}

/// How many states a session's cache holds unless told otherwise.
pub const DEFAULT_CACHE_SIZE: usize = 8192;

/// Every entry of `cache` holds what `c` computes for its state.
pub open spec fn cache_ok(c: &LR1GrammarConstraint, cache: StateCache) -> bool {
    forall|x: KeyView|
        #[trigger] lru_entries(cache).contains_key(x) ==> {
            let m = LR1Model { stack: x.0, pending: x.1, lex: x.2, matched: x.3 };
            &&& lists_valid(c, m, lru_entries(cache)[x].0)
            &&& lru_entries(cache)[x].1 == c.matching(m)
        }
}

/// The cache key of a state.
pub open spec fn model_key(m: LR1Model) -> KeyView {
    (m.stack, m.pending, m.lex, m.matched)
}

/// The continuations offered in `s` and whether it matches, taken from the
/// cache when it holds them and stored there otherwise.
fn lookup(c: &LR1GrammarConstraint, cache: &mut StateCache, s: &LR1State) -> (r: (Vec<usize>, bool))
    requires
        c.wf(),
        c.is_state(s@),
        cache_ok(c, *old(cache)),
    ensures
        cache_ok(c, *final(cache)),
        lists_valid(c, s@, r.0@),
        r.1 == c.matching(s@),
        lru_cap(*final(cache)) == lru_cap(*old(cache)),
        lru_entries(*final(cache)).contains_key(model_key(s@)),
        lru_entries(*final(cache))[model_key(s@)] == (r.0@, r.1),
{
    let key = (copy_vec(&s.stack), copy_vec(&s.pending), s.lex, s.matched);
    let ghost kv = key_view(key);
    assert(LR1Model { stack: kv.0, pending: kv.1, lex: kv.2, matched: kv.3 } == s@);
    match lru_get(cache, &key) {
        Some(e) => e,
        None => {
            let indices = c.get_valid_continuations(s);
            let matching = c.is_match_state(s);
            lru_put(cache, key, (copy_vec(&indices), matching));
            (indices, matching)
        },
    }
}

/// A generation session over an LR(1) grammar, with a bounded cache of what was
/// computed for the states it visited.
pub struct LR1Constraint {
    pub constraint: LR1GrammarConstraint,
    pub state: LR1State,
    pub indices: Vec<usize>,
    pub matching: bool,
    pub invalid: bool,
    pub cache: StateCache,
}

impl LR1Constraint {
    pub open spec fn inv(&self) -> bool {
        &&& cache_ok(&self.constraint, self.cache)
        &&& self.constraint.wf()
        &&& self.constraint.is_state(self.state@)
        &&& lists_valid(&self.constraint, self.state@, self.indices@)
        &&& self.matching == self.constraint.matching(self.state@)
    }

    /// Starts a session; the cache holds `lru_cache_size` states, or
    /// `DEFAULT_CACHE_SIZE` when that is `None` or zero.
    pub fn init(constraint: LR1GrammarConstraint, lru_cache_size: Option<usize>) -> (r: Self)
        requires
            constraint.wf(),
        ensures
            r.inv(),
            r.constraint == constraint,
            r.state@ == constraint.start(),
            !r.invalid,
            lru_cap(r.cache) == match lru_cache_size {
                Some(n) => if n > 0 {
                    n
                } else {
                    DEFAULT_CACHE_SIZE
                },
                None => DEFAULT_CACHE_SIZE,
            },
            lru_entries(r.cache).contains_key(model_key(r.state@)),
            lru_entries(r.cache)[model_key(r.state@)] == (r.indices@, r.matching),
    {
        let size = match lru_cache_size {
            Some(n) => if n > 0 {
                n
            } else {
                DEFAULT_CACHE_SIZE
            },
            None => DEFAULT_CACHE_SIZE,
        };
        let mut cache = lru_new(size);
        let state = constraint.get_start_state();
        let (indices, matching) = lookup(&constraint, &mut cache, &state);
        LR1Constraint { constraint, state, indices, matching, invalid: false, cache }
    }

    pub fn new(
        table: ParseTable,
        lexer: Lexer,
        continuations: Vec<Vec<u8>>,
        exact: bool,
        lru_cache_size: Option<usize>,
    ) -> (r: Result<
        Self,
        GrammarError,
    >)
        requires
            lexer.wf(),
        ensures
            r matches Ok(s) ==> s.inv() && !s.invalid && s.state@ == s.constraint.start()
                && s.constraint.continuations@ == continuations@ && s.constraint.engine.exact == exact,
            r is Err <==> !(table.wf() && lexer.num_tokens() <= table.eoi),
    {
        match LR1GrammarConstraint::new(table, lexer, continuations, exact) {
            Ok(c) => Ok(Self::init(c, lru_cache_size)),
            Err(e) => Err(e),
        }
    }

    /// Moves to the state after `prefix` (the start when `None`); fails, changing
    /// nothing, when no accepted input begins with it.
    pub fn reset(&mut self, prefix: Option<Vec<u8>>) -> (r: Result<(), SessionError>)
        requires
            old(self).inv(),
        ensures
            final(self).inv(),
            final(self).constraint == old(self).constraint,
            ({
                let p = match prefix {
                    Some(v) => v@,
                    None => Seq::<u8>::empty(),
                };
                match old(self).constraint.state_of(p) {
                    Some(s) => r is Ok && final(self).state@ == s && !final(self).invalid,
                    None => r == Err::<(), SessionError>(SessionError::InvalidPrefix) && *final(self)
                        == *old(self),
                }
            }),
    {
        let p = match prefix {
            Some(v) => v,
            None => Vec::new(),
        };
        match self.constraint.get_state(p.as_slice()) {
            None => Err(SessionError::InvalidPrefix),
            Some(s) => {
                let (indices, matching) = lookup(&self.constraint, &mut self.cache, &s);
                self.indices = indices;
                self.matching = matching;
                self.state = s;
                self.invalid = false;
                Ok(())
            },
        }
    }

    /// The continuations offered in the current state; none once the input is
    /// accepted and only skippable text could follow.
    pub fn get(&self) -> (r: Vec<usize>)
        requires
            self.inv(),
        ensures
            self.constraint.only_skippable(self.state@) ==> r@.len() == 0,
            !self.constraint.only_skippable(self.state@) ==> lists_valid(
                &self.constraint,
                self.state@,
                r@,
            ),
    {
        if self.matching && self.constraint.only_skippable_matching(&self.state) {
            Vec::new()
        } else {
            copy_indices(&self.indices)
        }
    }

    /// The last step failed, or nothing can follow and the input is not accepted.
    pub fn is_invalid(&self) -> (r: bool)
        ensures
            r == (self.invalid || (self.indices@.len() == 0 && !self.matching)),
    {
        self.invalid || (self.indices.len() == 0 && !self.matching)
    }

    pub fn is_match(&self) -> (r: bool)
        requires
            self.inv(),
        ensures
            r == self.constraint.matching(self.state@),
    {
        self.matching
    }

    /// Appends continuation `index`; when it cannot be taken, the state stays
    /// and the session is marked invalid.
    pub fn next(&mut self, index: usize)
        requires
            old(self).inv(),
            index < old(self).constraint.num_continuations(),
        ensures
            final(self).inv(),
            final(self).constraint == old(self).constraint,
            match old(self).constraint.step(old(self).state@, index as nat) {
                Some(s) => final(self).state@ == s && final(self).invalid == old(self).invalid,
                None => final(self).state@ == old(self).state@ && final(self).invalid
                    && final(self).indices@ == old(self).indices@ && final(self).matching
                    == old(self).matching && final(self).cache == old(self).cache,
            },
    {
        match self.constraint.get_next_state(&self.state, index) {
            None => {
                self.invalid = true;
            },
            Some(s) => {
                let (indices, matching) = lookup(&self.constraint, &mut self.cache, &s);
                self.indices = indices;
                self.matching = matching;
                self.state = s;
            },
        }
    }
}

} // verus!
