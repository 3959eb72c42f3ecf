use vstd::prelude::*;

use crate::dfa::{table_wf, ByteDfa};
use regex_automata::dfa::dense::{BuildError, Builder, Config, DFA};
use regex_automata::dfa::{Automaton, StartKind};
use regex_automata::util::primitives::StateID;
use regex_automata::util::start;
use regex_automata::{Anchored, MatchKind};
use std::collections::HashMap;

verus! {

broadcast use vstd::std_specs::hash::group_hash_axioms;

#[verifier::external_type_specification]
#[verifier::external_body]
#[verifier::reject_recursive_types(T)]
pub struct ExDenseDfa<T>(DFA<T>);

#[verifier::external_type_specification]
#[verifier::external_body]
pub struct ExBuildError(BuildError);

/// Why an automaton could not be built.
#[derive(Debug, Clone, Copy, PartialEq, Eq, Structural)]
pub enum CompileError {
    /// A pattern was rejected by the regex compiler.
    Syntax,
    /// The automaton has no anchored start state.
    NoStart,
    /// The automaton has more states than `MAX_STATES`.
    TooManyStates,
    /// The continuations hold more bytes than a trie can index.
    Vocabulary,
}

/// The largest number of states an automaton may have.
pub const MAX_STATES: usize = 1000000;

/// The texts of some patterns.
pub open spec fn pattern_texts(p: Seq<String>) -> Seq<Seq<char>> {
    p.map_values(|s: String| s@)
}

/// The regex compiler accepts these patterns.
pub uninterp spec fn dense_builds(patterns: Seq<Seq<char>>) -> bool;

/// How many states the automaton compiled from these patterns has.
pub uninterp spec fn dense_state_count(patterns: Seq<Seq<char>>) -> nat;

/// The identifiers of the states of a compiled automaton.
pub uninterp spec fn dense_states(d: DFA<Vec<u32>>) -> Set<usize>;

/// The match states of a compiled automaton, each with how many patterns match there.
pub uninterp spec fn dense_matches(d: DFA<Vec<u32>>) -> Map<usize, nat>;

/// How many patterns a compiled automaton was built from.
pub uninterp spec fn dense_pattern_len(d: DFA<Vec<u32>>) -> nat;

/// The automaton was built to support anchored searches.
pub uninterp spec fn dense_anchored(d: DFA<Vec<u32>>) -> bool;

/// Relies on regex_automata's dense DFA builder (`Builder::build_many`): compiles
/// the patterns into one DFA that reports every pattern matching at a position,
/// with anchored starts; it fails only on what the patterns are; the DFA has
/// one pattern per given pattern.
#[verifier::external_body]
fn build_dense(patterns: &Vec<String>) -> (r: Result<DFA<Vec<u32>>, BuildError>)
    ensures
        r is Ok <==> dense_builds(pattern_texts(patterns@)),
        r matches Ok(d) ==> dense_states(d).finite() && dense_states(d).len() == dense_state_count(
            pattern_texts(patterns@),
        ) && dense_pattern_len(d) == patterns@.len() && dense_anchored(d),
{
    Builder::new()
        .configure(Config::new().match_kind(MatchKind::All).start_kind(StartKind::Anchored))
        .build_many(patterns)
}

/// Relies on `Automaton::start_state` of a dense DFA: the anchored start state,
/// which a DFA built for anchored searches has.
#[verifier::external_body]
fn anchored_start(dfa: &DFA<Vec<u32>>) -> (r: Option<usize>)
    ensures
        dense_anchored(*dfa) ==> r is Some,
        r matches Some(k) ==> dense_states(*dfa).contains(k),
{
    dfa.start_state(&start::Config::new().anchored(Anchored::Yes)).ok().map(|id| id.as_usize())
}

/// Relies on `Automaton::next_state` of a dense DFA: the transition on one byte,
/// from a state of that DFA to a state of it.
#[verifier::external_body]
fn dense_next(dfa: &DFA<Vec<u32>>, k: usize, b: u8) -> (r: usize)
    requires
        dense_states(*dfa).contains(k),
    ensures
        dense_states(*dfa).contains(r),
{
    dfa.next_state(StateID::new_unchecked(k), b).as_usize()
}

/// Relies on `Automaton::next_eoi_state` of a dense DFA: the transition at the
/// end of the input, from a state of that DFA to a state of it.
#[verifier::external_body]
fn dense_next_eoi(dfa: &DFA<Vec<u32>>, k: usize) -> (r: usize)
    requires
        dense_states(*dfa).contains(k),
    ensures
        dense_states(*dfa).contains(r),
{
    dfa.next_eoi_state(StateID::new_unchecked(k)).as_usize()
}

/// Relies on `Automaton::is_match_state` of a dense DFA.
#[verifier::external_body]
fn dense_is_match(dfa: &DFA<Vec<u32>>, k: usize) -> (r: bool)
    requires
        dense_states(*dfa).contains(k),
    ensures
        r == dense_matches(*dfa).contains_key(k),
{
    dfa.is_match_state(StateID::new_unchecked(k))
}

/// Relies on `Automaton::match_len` of a dense DFA: how many patterns match in a
/// match state.
#[verifier::external_body]
fn dense_match_len(dfa: &DFA<Vec<u32>>, k: usize) -> (r: usize)
    requires
        dense_matches(*dfa).contains_key(k),
    ensures
        r == dense_matches(*dfa)[k],
{
    dfa.match_len(StateID::new_unchecked(k))
}

/// Relies on `Automaton::match_pattern` of a dense DFA: the pattern matching at
/// index `i` of a match state, one of the DFA's patterns.
#[verifier::external_body]
fn dense_match_pattern(dfa: &DFA<Vec<u32>>, k: usize, i: usize) -> (r: usize)
    requires
        dense_matches(*dfa).contains_key(k),
        i < dense_matches(*dfa)[k],
    ensures
        r < dense_pattern_len(*dfa),
{
    dfa.match_pattern(StateID::new_unchecked(k), i).as_usize()
}

/// What the table of one pattern set holds: for each state, the token matching
/// when the input ends there (the lowest pattern index among those matching).
pub struct Compiled {
    pub dfa: ByteDfa,
    pub token: Vec<Option<usize>>,
}

impl Compiled {
    pub open spec fn wf(&self) -> bool {
        &&& self.dfa.wf()
        &&& self.token@.len() == self.dfa.num_states()
        &&& forall|q: int|
            0 <= q < self.token@.len() ==> (#[trigger] self.token@[q] is Some) == self.dfa.accepting@[q]
    }
}

/// The lowest pattern index among those matching in state `k`.
fn lowest_pattern(dfa: &DFA<Vec<u32>>, k: usize) -> (r: usize)
    requires
        dense_matches(*dfa).contains_key(k),
        dense_pattern_len(*dfa) > 0,
    ensures
        r < dense_pattern_len(*dfa),
{
    let n = dense_match_len(dfa, k);
    if n == 0 {
        return 0;
    }
    let mut best = dense_match_pattern(dfa, k, 0);
    let mut i: usize = 1;
    while i < n
        invariant
            i <= n,
            n == dense_matches(*dfa)[k],
            dense_matches(*dfa).contains_key(k),
            best < dense_pattern_len(*dfa),
        decreases n - i,
    {
        let p = dense_match_pattern(dfa, k, i);
        if p < best {
            best = p;
        }
        i = i + 1;
    }
    best
}

/// Walks the states reachable from the anchored start and writes them down as a
/// table, state 0 being the start; `token[q]` is below the number of patterns.
pub fn compile_patterns(patterns: &Vec<String>) -> (r: Result<Compiled, CompileError>)
    ensures
        r matches Ok(c) ==> c.wf() && c.dfa.start == 0 && forall|q: int|
            0 <= q < c.token@.len() && c.token@[q] is Some ==> (#[trigger] c.token@[q]).unwrap()
                < patterns@.len(),
        !dense_builds(pattern_texts(patterns@)) ==> r == Err::<Compiled, CompileError>(
            CompileError::Syntax,
        ),
        dense_builds(pattern_texts(patterns@)) && dense_state_count(pattern_texts(patterns@))
            <= MAX_STATES ==> r is Ok,
{
    let dense = match build_dense(patterns) {
        Ok(d) => d,
        Err(_) => {
            return Err(CompileError::Syntax);
        },
    };
    let start_id = match anchored_start(&dense) {
        Some(s) => s,
        None => {
            return Err(CompileError::NoStart);
        },
    };
    let ghost states = dense_states(dense);
    let mut ids: Vec<usize> = Vec::new();
    let mut index_of: HashMap<usize, usize> = HashMap::new();
    let mut next: Vec<Vec<usize>> = Vec::new();
    ids.push(start_id);
    index_of.insert(start_id, 0);
    proof {
        assert(index_of@.dom() =~= Set::<usize>::empty().insert(start_id));
    }
    while next.len() < ids.len()
        invariant
            states == dense_states(dense),
            states.finite(),
            states.len() == dense_state_count(pattern_texts(patterns@)),
            dense_builds(pattern_texts(patterns@)),
            dense_pattern_len(dense) == patterns@.len(),
            forall|k: usize| #[trigger] index_of@.contains_key(k) ==> index_of@[k] < ids@.len(),
            forall|j: int| 0 <= j < ids@.len() ==> states.contains(#[trigger] ids@[j]),
            index_of@.dom().subset_of(states),
            index_of@.dom().finite(),
            index_of@.dom().len() == ids@.len(),
            1 <= ids@.len() <= MAX_STATES,
            next@.len() <= ids@.len(),
            forall|q: int| 0 <= q < next@.len() ==> (#[trigger] next@[q]@).len() == 256,
            forall|q: int, b: int|
                0 <= q < next@.len() && 0 <= b < 256 ==> (#[trigger] next@[q]@[b]) < ids@.len(),
        decreases MAX_STATES - next@.len(),
    {
        let cur = ids[next.len()];
        let mut row: Vec<usize> = Vec::new();
        let mut b: usize = 0;
        while b < 256
            invariant
                states == dense_states(dense),
                states.finite(),
                states.len() == dense_state_count(pattern_texts(patterns@)),
                dense_builds(pattern_texts(patterns@)),
                dense_pattern_len(dense) == patterns@.len(),
                states.contains(cur),
                forall|k: usize| #[trigger] index_of@.contains_key(k) ==> index_of@[k] < ids@.len(),
                forall|j: int| 0 <= j < ids@.len() ==> states.contains(#[trigger] ids@[j]),
                index_of@.dom().subset_of(states),
                index_of@.dom().finite(),
                index_of@.dom().len() == ids@.len(),
                1 <= ids@.len() <= MAX_STATES,
                next@.len() < ids@.len(),
                row@.len() == b,
                b <= 256,
                forall|c: int| 0 <= c < b ==> #[trigger] row@[c] < ids@.len(),
                forall|q: int| 0 <= q < next@.len() ==> (#[trigger] next@[q]@).len() == 256,
                forall|q: int, c: int|
                    0 <= q < next@.len() && 0 <= c < 256 ==> (#[trigger] next@[q]@[c]) < ids@.len(),
            decreases 256 - b,
        {
            let t = dense_next(&dense, cur, b as u8);
            match index_of.get(&t) {
                Some(j) => row.push(*j),
                None => {
                    if ids.len() >= MAX_STATES {
                        proof {
                            let d2 = index_of@.dom().insert(t);
                            vstd::set_lib::lemma_len_subset(d2, states);
                            assert(d2.len() == index_of@.dom().len() + 1);
                        }
                        return Err(CompileError::TooManyStates);
                    }
                    let ghost d0 = index_of@.dom();
                    index_of.insert(t, ids.len());
                    proof {
                        assert(index_of@.dom() =~= d0.insert(t));
                    }
                    row.push(ids.len());
                    ids.push(t);
                },
            }
            b = b + 1;
        }
        next.push(row);
    }
    let n = ids.len();
    let mut accepting: Vec<bool> = Vec::new();
    let mut token: Vec<Option<usize>> = Vec::new();
    let mut q: usize = 0;
    while q < n
        invariant
            n == ids@.len(),
            q <= n,
            forall|j: int| 0 <= j < ids@.len() ==> dense_states(dense).contains(#[trigger] ids@[j]),
            dense_pattern_len(dense) == patterns@.len(),
            accepting@.len() == q,
            token@.len() == q,
            forall|p: int| 0 <= p < q ==> (#[trigger] token@[p] is Some) == accepting@[p],
            forall|p: int| 0 <= p < q && token@[p] is Some ==> (#[trigger] token@[p]).unwrap() < patterns@.len(),
        decreases n - q,
    {
        let eoi = dense_next_eoi(&dense, ids[q]);
        if dense_is_match(&dense, eoi) && patterns.len() > 0 {
            accepting.push(true);
            token.push(Some(lowest_pattern(&dense, eoi)));
        } else {
            accepting.push(false);
            token.push(None);
        }
        q = q + 1;
    }
    proof {
        assert(table_wf(next@));
    }
    let dfa = ByteDfa::from_parts(0, next, accepting);
    Ok(Compiled { dfa, token })
}

} // verus!
