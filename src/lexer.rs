use vstd::prelude::*;

use crate::compile::{compile_patterns, dense_builds, dense_state_count, pattern_texts, MAX_STATES};
use crate::dfa::{compute_live, reaches, table_wf, ByteDfa};

verus! {

/// A lexer: a byte automaton whose accepting states name the token matched
/// there, the skippable tokens, and for each token the states from which it can
/// still be matched.
pub struct Lexer {
    pub dfa: ByteDfa,
    /// `token[q]`: the token matched when the input ends in state `q`.
    pub token: Vec<Option<usize>>,
    /// `skippable[t]`: token `t` never reaches the parser.
    pub skippable: Vec<bool>,
    /// `reach[t][q]`: token `t` is matched after some input read from `q`.
    pub reach: Vec<Vec<bool>>,
}

/// The states in which token `t` is matched.
pub open spec fn token_states(token: Seq<Option<usize>>, t: usize) -> Seq<bool> {
    Seq::new(token.len(), |p: int| token[p] == Some(t))
}

/// Why a lexer could not be built.
#[derive(Debug, Clone, Copy, PartialEq, Eq, Structural)]
pub enum LexerError {
    /// A token pattern was rejected, or the automaton has too many states.
    Compile,
    /// The skippable marks do not match the patterns one for one.
    Mismatch,
}

impl Lexer {
    pub open spec fn num_tokens(&self) -> nat {
        self.skippable@.len()
    }

    pub open spec fn wf(&self) -> bool {
        &&& self.dfa.wf()
        &&& self.token@.len() == self.dfa.num_states()
        &&& forall|q: int|
            0 <= q < self.token@.len() ==> (#[trigger] self.token@[q] is Some) == self.dfa.accepting@[q]
        &&& forall|q: int|
            0 <= q < self.token@.len() && self.token@[q] is Some ==> (#[trigger] self.token@[q]).unwrap()
                < self.num_tokens()
        &&& self.reach@.len() == self.num_tokens()
        &&& forall|t: int| 0 <= t < self.reach@.len() ==> (#[trigger] self.reach@[t]@).len() == self.dfa.num_states()
        &&& forall|t: int, q: int|
            0 <= t < self.reach@.len() && 0 <= q < self.dfa.num_states() ==> (#[trigger] self.reach@[t]@[q])
                == reaches(self.dfa.next@, token_states(self.token@, t as usize), q as nat)
    }

    /// Compiles one pattern per token; a token's index is its pattern's index,
    /// and where several tokens match, the lowest index wins.
    pub fn new(patterns: &Vec<String>, skippable: Vec<bool>) -> (r: Result<Lexer, LexerError>)
        ensures
            r matches Ok(l) ==> l.wf() && l.skippable@ == skippable@,
            patterns@.len() != skippable@.len() ==> r == Err::<Lexer, LexerError>(LexerError::Mismatch),
            patterns@.len() == skippable@.len() && !dense_builds(pattern_texts(patterns@)) ==> r == Err::<
                Lexer,
                LexerError,
            >(LexerError::Compile),
            patterns@.len() == skippable@.len() && dense_builds(pattern_texts(patterns@))
                && dense_state_count(pattern_texts(patterns@)) <= MAX_STATES ==> r is Ok,
    {
        if patterns.len() != skippable.len() {
            return Err(LexerError::Mismatch);
        }
        let c = match compile_patterns(patterns) {
            Ok(c) => c,
            Err(_) => {
                return Err(LexerError::Compile);
            },
        };
        let n = c.dfa.len();
        let nt = skippable.len();
        let mut reach: Vec<Vec<bool>> = Vec::new();
        let mut t: usize = 0;
        while t < nt
            invariant
                c.wf(),
                n == c.dfa.num_states(),
                nt == skippable@.len(),
                nt == patterns@.len(),
                forall|p: int| 0 <= p < n && c.token@[p] is Some ==> (#[trigger] c.token@[p]).unwrap() < nt,
                t <= nt,
                reach@.len() == t,
                forall|u: int| 0 <= u < t ==> (#[trigger] reach@[u]@).len() == n,
                forall|u: int, p: int|
                    0 <= u < t && 0 <= p < n ==> (#[trigger] reach@[u]@[p]) == reaches(
                        c.dfa.next@,
                        token_states(c.token@, u as usize),
                        p as nat,
                    ),
            decreases nt - t,
        {
            let mut acc: Vec<bool> = Vec::new();
            let mut p: usize = 0;
            while p < n
                invariant
                    c.wf(),
                    n == c.dfa.num_states(),
                    p <= n,
                    acc@.len() == p,
                    forall|k: int| 0 <= k < p ==> acc@[k] == (c.token@[k] == Some(t)),
                decreases n - p,
            {
                let hit = match c.token[p] {
                    Some(u) => u == t,
                    None => false,
                };
                acc.push(hit);
                p = p + 1;
            }
            assert(acc@ =~= token_states(c.token@, t));
            let live = compute_live(&c.dfa.next, &acc);
            reach.push(live);
            t = t + 1;
        }
        Ok(Lexer { dfa: c.dfa, token: c.token, skippable, reach })
    }
}

} // verus!
