use vstd::prelude::*;

use crate::compile::{compile_patterns, dense_builds, dense_state_count, pattern_texts, CompileError, MAX_STATES};
use crate::dfa::{lemma_dead_stays_dead, lemma_run_in_bounds, lemma_run_in_concat, ByteDfa};
use crate::prefix_index::{total_len, vocab_view, PrefixIndex};
use crate::{fold_steps, lemma_fold_none, spells_bytes, Constraint};

verus! {

/// The continuation oracle of a regular language, given by a regular expression
/// compiled to a byte automaton.
pub struct RegularExpressionConstraint {
    pub dfa: ByteDfa,
    pub continuations: Vec<Vec<u8>>,
    pub index: PrefixIndex,
}

impl RegularExpressionConstraint {
    /// `w` belongs to the language.
    pub open spec fn in_language(&self, w: Seq<u8>) -> bool {
        self.dfa.accepts(w)
    }

    pub open spec fn continuation(&self, i: nat) -> Seq<u8> {
        self.continuations@[i as int]@
    }

    /// Reading continuation `i` from `s` keeps acceptance within reach.
    pub open spec fn viable(&self, s: nat, i: nat) -> bool {
        self.dfa.can_accept(self.dfa.run_spec(s, self.continuation(i)))
    }

    /// Compiles `regex` (matched against whole strings) and keeps `continuations`
    /// as the vocabulary.
    pub fn new(regex: &str, continuations: Vec<Vec<u8>>) -> (r: Result<Self, CompileError>)
        ensures
            r matches Ok(c) ==> c.wf() && c.continuations@ == continuations@,
            !dense_builds(seq![regex@]) ==> r == Err::<Self, CompileError>(CompileError::Syntax),
            dense_builds(seq![regex@]) && dense_state_count(seq![regex@]) <= MAX_STATES && total_len(
                vocab_view(continuations@),
            ) + 1 < usize::MAX ==> r is Ok,
    {
        let mut patterns: Vec<String> = Vec::new();
        patterns.push(regex.to_owned());
        assert(pattern_texts(patterns@) =~= seq![regex@]);
        let c = match compile_patterns(&patterns) {
            Ok(c) => c,
            Err(e) => {
                return Err(e);
            },
        };
        match PrefixIndex::new(&continuations) {
            Some(index) => Ok(RegularExpressionConstraint { dfa: c.dfa, continuations, index }),
            None => Err(CompileError::Vocabulary),
        }
    }
}

impl Constraint for RegularExpressionConstraint {
    type State = usize;

    open spec fn wf(&self) -> bool {
        &&& self.dfa.wf()
        &&& self.index.wf(vocab_view(self.continuations@))
    }

    open spec fn num_continuations(&self) -> nat {
        self.continuations@.len()
    }

    open spec fn is_state(&self, s: usize) -> bool {
        s < self.dfa.num_states()
    }

    open spec fn start(&self) -> usize {
        self.dfa.start
    }

    open spec fn state_of(&self, prefix: Seq<u8>) -> Option<usize> {
        let q = self.dfa.run_spec(self.dfa.start as nat, prefix);
        if self.dfa.can_accept(q) {
            Some(q as usize)
        } else {
            None
        }
    }

    open spec fn matching(&self, s: usize) -> bool {
        self.dfa.is_accepting(s as nat)
    }

    open spec fn step(&self, s: usize, i: nat) -> Option<usize> {
        if self.viable(s as nat, i) {
            Some(self.dfa.run_spec(s as nat, self.continuation(i)) as usize)
        } else {
            None
        }
    }

    open spec fn admits(&self, s: usize, i: nat) -> bool {
        self.viable(s as nat, i)
    }

    fn get_state(&self, prefix: &[u8]) -> (r: Option<usize>) {
        let q = self.dfa.run(self.dfa.start, prefix);
        if self.dfa.is_live(q) {
            Some(q)
        } else {
            None
        }
    }

    fn get_start_state(&self) -> (r: usize) {
        self.dfa.start
    }

    fn is_match_state(&self, state: &usize) -> (r: bool) {
        self.dfa.is_match(*state)
    }

    fn get_valid_continuations(&self, state: &usize) -> (r: Vec<usize>) {
        let r = self.index.viable(Ghost(vocab_view(self.continuations@)), &self.dfa, *state);
        assert forall|i: nat| i < self.continuations@.len() implies (r@.contains(i as usize) <==> self.viable(
            *state as nat,
            i,
        )) by {
            assert(vocab_view(self.continuations@)[i as int] == self.continuation(i));
        }
        r
    }

    fn get_next_state(&self, state: &usize, continuation: usize) -> (r: Option<usize>) {
        let t = self.dfa.run(*state, self.continuations[continuation].as_slice());
        if self.dfa.is_live(t) {
            Some(t)
        } else {
            None
        }
    }
}

/// When some string of the language begins with continuation `i`, that
/// continuation may be appended at the start.
pub proof fn lemma_start_valid(c: &RegularExpressionConstraint, w: Seq<u8>, i: nat)
    requires
        c.wf(),
        i < c.num_continuations(),
        c.in_language(w),
        c.continuation(i).len() <= w.len(),
        w.take(c.continuation(i).len() as int) == c.continuation(i),
    ensures
        c.admits(c.start(), i),
{
    let u = c.continuation(i);
    let v = w.skip(u.len() as int);
    assert(u + v =~= w);
    let s = c.dfa.start as nat;
    lemma_run_in_concat(c.dfa.next@, s, u, v);
    assert(c.dfa.accepting@[crate::dfa::run_in(c.dfa.next@, c.dfa.run_spec(s, u), v) as int]);
}

/// Every continuation offered can be taken.
pub proof fn lemma_extension_sound(c: &RegularExpressionConstraint, s: usize, i: nat)
    requires
        c.wf(),
        c.is_state(s),
        i < c.num_continuations(),
        c.admits(s, i),
    ensures
        c.step(s, i) is Some,
{
}

/// Every continuation that can be taken is offered.
pub proof fn lemma_extension_complete(c: &RegularExpressionConstraint, s: usize, i: nat)
    requires
        c.wf(),
        c.is_state(s),
        i < c.num_continuations(),
        c.step(s, i) is Some,
    ensures
        c.admits(s, i),
{
}

proof fn lemma_fold_from(c: &RegularExpressionConstraint, q: nat, idx: Seq<usize>, w: Seq<u8>)
    requires
        c.wf(),
        q < c.dfa.num_states(),
        c.dfa.can_accept(q),
        spells_bytes(c.continuations@, idx, w),
    ensures
        fold_steps(c, Some(q as usize), idx) == (if c.dfa.can_accept(c.dfa.run_spec(q, w)) {
            Some(c.dfa.run_spec(q, w) as usize)
        } else {
            None
        }),
    decreases w.len(),
{
    if w.len() > 0 {
        let b = w[0];
        let t = c.dfa.run_spec(q, seq![b]);
        assert(c.continuation(idx[0] as nat) == seq![b]);
        assert(seq![b].drop_first() =~= Seq::<u8>::empty());
        let sb = crate::dfa::step_in(c.dfa.next@, q, b);
        assert(seq![b][0] == b);
        assert(crate::dfa::run_in(c.dfa.next@, sb, Seq::<u8>::empty()) == sb);
        assert(t == sb);
        assert(c.dfa.run_spec(q, w) == c.dfa.run_spec(t, w.drop_first()));
        lemma_run_in_bounds(c.dfa.next@, q, seq![b]);
        let rest = idx.drop_first();
        assert(spells_bytes(c.continuations@, rest, w.drop_first())) by {
            assert forall|k: int| 0 <= k < rest.len() implies c.continuations@[rest[k] as int]@ == seq![
                #[trigger] w.drop_first()[k],
            ] by {
                assert(rest[k] == idx[k + 1]);
                assert(w.drop_first()[k] == w[k + 1]);
            }
        }
        if c.dfa.can_accept(t) {
            lemma_fold_from(c, t, rest, w.drop_first());
        } else {
            lemma_fold_none(c, rest);
            lemma_dead_stays_dead(&c.dfa, t, w.drop_first());
        }
    }
}

/// Reading a prefix at once gives the state reached by appending its bytes as
/// single-byte continuations one by one (for a language that is not empty).
pub proof fn lemma_state_determinism(c: &RegularExpressionConstraint, w: Seq<u8>, idx: Seq<usize>)
    requires
        c.wf(),
        c.state_of(Seq::empty()) is Some,
        spells_bytes(c.continuations@, idx, w),
    ensures
        fold_steps(c, Some(c.start()), idx) == c.state_of(w),
{
    lemma_fold_from(c, c.dfa.start as nat, idx, w);
}

/// The state of a prefix is matching exactly when the prefix is in the language;
/// a prefix without a state is not in the language.
pub proof fn lemma_match_stable(c: &RegularExpressionConstraint, w: Seq<u8>)
    requires
        c.wf(),
    ensures
        c.state_of(w) matches Some(s) ==> c.matching(s) == c.in_language(w),
        c.state_of(w) is None ==> !c.in_language(w),
{
    let q = c.dfa.run_spec(c.dfa.start as nat, w);
    lemma_run_in_bounds(c.dfa.next@, c.dfa.start as nat, w);
    if c.in_language(w) {
        assert(c.dfa.accepting@[crate::dfa::run_in(c.dfa.next@, q, Seq::<u8>::empty()) as int]);
    }
}

/// An empty continuation is offered in every state from which acceptance is
/// within reach, and leaves the state as it is.
pub proof fn lemma_empty_continuation(c: &RegularExpressionConstraint, s: usize, e: nat)
    requires
        c.wf(),
        c.is_state(s),
        c.dfa.can_accept(s as nat),
        e < c.num_continuations(),
        c.continuation(e).len() == 0,
    ensures
        c.admits(s, e),
        c.step(s, e) == Some(s),
{
    assert(c.dfa.run_spec(s as nat, c.continuation(e)) == s as nat);
}

} // verus!
