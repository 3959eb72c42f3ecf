//! Continuation oracles for constrained generation over a fixed vocabulary of
//! byte strings: which continuations may be appended to a prefix so that it can
//! still become a string of a language, given by a regular expression (`regex`)
//! or by LR(1) tables and a lexer (`lr1`), and a parser for the longest accepted
//! prefix of an input (`parser`). `dfa` and `prefix_index` hold the byte
//! automata and the vocabulary trie they share; `session` keeps a current state.
use vstd::prelude::*;

pub mod cache;
pub mod compile;
pub mod dfa;
pub mod lexer;
pub mod lr1;
pub mod parser;
pub mod prefix_index;
pub mod regex;
pub mod session;
pub mod table;

verus! {

/// Strictly increasing indices, each below `n`.
pub open spec fn sorted_indices(r: Seq<usize>, n: nat) -> bool {
    &&& forall|k: int| 0 <= k < r.len() ==> (#[trigger] r[k]) < n
    &&& forall|j: int, k: int| 0 <= j < k < r.len() ==> r[j] < r[k]
}

/// The state reached from `s` by appending the continuations `idx` one after
/// the other, or `None` once a step fails.
pub open spec fn fold_steps<C: Constraint>(
    c: &C,
    s: Option<<C::State as View>::V>,
    idx: Seq<usize>,
) -> Option<<C::State as View>::V>
    decreases idx.len(),
{
    if idx.len() == 0 {
        s
    } else {
        match s {
            None => None,
            Some(q) => fold_steps(c, c.step(q, idx[0] as nat), idx.drop_first()),
        }
    }
}

pub proof fn lemma_fold_none<C: Constraint>(c: &C, idx: Seq<usize>)
    ensures
        fold_steps(c, None, idx) is None,
    decreases idx.len(),
{
}

/// `idx` spells `w` one byte at a time: continuation `idx[k]` is the single byte `w[k]`.
pub open spec fn spells_bytes(vocab: Seq<Vec<u8>>, idx: Seq<usize>, w: Seq<u8>) -> bool {
    &&& idx.len() == w.len()
    &&& forall|k: int| 0 <= k < idx.len() ==> (#[trigger] idx[k]) < vocab.len()
    &&& forall|k: int| 0 <= k < idx.len() ==> vocab[idx[k] as int]@ == seq![#[trigger] w[k]]
}

/// The view of an optional value.
pub open spec fn opt_view<T: View>(o: Option<T>) -> Option<T::V> {
    match o {
        Some(x) => Some(x@),
        None => None,
    }
}

/// A language whose strings are produced by appending continuations, entries of
/// a fixed vocabulary of byte strings, one at a time.
pub trait Constraint {
    type State: View;

    /// The constraint's tables are consistent.
    spec fn wf(&self) -> bool;

    /// How many continuations the vocabulary holds.
    spec fn num_continuations(&self) -> nat;

    /// `s` is a state that this constraint can be queried on.
    spec fn is_state(&self, s: <Self::State as View>::V) -> bool;

    spec fn start(&self) -> <Self::State as View>::V;

    /// The state after reading `prefix` from the start, or `None` when the
    /// constraint rejects `prefix` (see each implementation for when).
    spec fn state_of(&self, prefix: Seq<u8>) -> Option<<Self::State as View>::V>;

    /// The input read so far is accepted in `s`.
    spec fn matching(&self, s: <Self::State as View>::V) -> bool;

    /// The state after appending continuation `i` in state `s`, or `None`.
    spec fn step(&self, s: <Self::State as View>::V, i: nat) -> Option<<Self::State as View>::V>;

    /// Continuation `i` may be appended in state `s`.
    spec fn admits(&self, s: <Self::State as View>::V, i: nat) -> bool;

    fn get_state(&self, prefix: &[u8]) -> (r: Option<Self::State>)
        requires
            self.wf(),
        ensures
            opt_view(r) == self.state_of(prefix@),
            r matches Some(s) ==> self.is_state(s@),
    ;

    fn get_start_state(&self) -> (r: Self::State)
        requires
            self.wf(),
        ensures
            r@ == self.start(),
            self.is_state(r@),
    ;

    fn is_match_state(&self, state: &Self::State) -> (r: bool)
        requires
            self.wf(),
            self.is_state(state@),
        ensures
            r == self.matching(state@),
    ;

    /// The continuations that may be appended in `state`, in increasing order.
    fn get_valid_continuations(&self, state: &Self::State) -> (r: Vec<usize>)
        requires
            self.wf(),
            self.is_state(state@),
        ensures
            sorted_indices(r@, self.num_continuations()),
            forall|i: nat| i < self.num_continuations() ==> (r@.contains(i as usize) <==> self.admits(state@, i)),
    ;

    fn get_next_state(&self, state: &Self::State, continuation: usize) -> (r: Option<Self::State>)
        requires
            self.wf(),
            self.is_state(state@),
            continuation < self.num_continuations(),
        ensures
            opt_view(r) == self.step(state@, continuation as nat),
            r matches Some(s) ==> self.is_state(s@),
    ;
}

} // verus!
