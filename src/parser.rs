use vstd::prelude::*;

use crate::lexer::Lexer;
use crate::dfa::{run_in, step_in};
use crate::lr1::{
    join_tails, lemma_raw_pending, lemma_run_bytes_prefix, lemma_run_bytes_raw, LR1Engine, LR1Model, LR1State,
};
use crate::table::{Action, Fed, FeedOutcome, ParseTable, REDUCTION_LIMIT};

verus! {

/// A node of a parse tree; spans are byte offsets into the parsed input.
pub enum LR1Parse {
    /// A nonterminal derived from the empty string.
    Empty(String),
    /// A token with its span and bytes.
    Terminal(String, (usize, usize), Vec<u8>),
    NonTerminal(String, Vec<LR1Parse>),
}

/// A terminal of a tree: its span and bytes.
pub type Leaf = (usize, usize, Seq<u8>);

/// The terminals of a tree, left to right.
pub open spec fn leaves(t: LR1Parse) -> Seq<Leaf>
    decreases t, 1nat, 0nat,
{
    match t {
        LR1Parse::Empty(_) => Seq::empty(),
        LR1Parse::Terminal(_, span, v) => seq![(span.0, span.1, v@)],
        LR1Parse::NonTerminal(_, cs) => leaves_upto(t, cs@.len()),
    }
}

/// The terminals of the first `k` children of `t`, left to right.
pub open spec fn leaves_upto(t: LR1Parse, k: nat) -> Seq<Leaf>
    decreases t, 0nat, k,
{
    match t {
        LR1Parse::NonTerminal(_, cs) => if k == 0 || k > cs@.len() {
            Seq::empty()
        } else {
            leaves_upto(t, (k - 1) as nat) + leaves(cs@[k - 1])
        },
        _ => Seq::empty(),
    }
}

/// The terminals of the trees `cs`, left to right.
pub open spec fn leaves_of(cs: Seq<LR1Parse>) -> Seq<Leaf>
    decreases cs.len(),
{
    if cs.len() == 0 {
        Seq::empty()
    } else {
        leaves_of(cs.drop_last()) + leaves(cs.last())
    }
}

/// The terminals of the trees present in `ns`, left to right.
pub open spec fn forest(ns: Seq<Option<LR1Parse>>) -> Seq<Leaf>
    decreases ns.len(),
{
    if ns.len() == 0 {
        Seq::empty()
    } else {
        forest(ns.drop_last()) + opt_leaves(ns.last())
    }
}

pub open spec fn opt_leaves(o: Option<LR1Parse>) -> Seq<Leaf> {
    match o {
        Some(t) => leaves(t),
        None => Seq::empty(),
    }
}

/// The tree follows the shaping rules: with `skip_empty`, no child is an
/// `Empty` node; with `collapse_single`, no nonterminal has exactly one child.
pub open spec fn shape_ok(t: LR1Parse, skip_empty: bool, collapse_single: bool) -> bool
    decreases t, 1nat, 0nat,
{
    match t {
        LR1Parse::NonTerminal(_, cs) => !(collapse_single && cs@.len() == 1) && shape_upto(
            t,
            cs@.len(),
            skip_empty,
            collapse_single,
        ),
        _ => true,
    }
}

/// The first `k` children of `t` follow the shaping rules.
pub open spec fn shape_upto(t: LR1Parse, k: nat, skip_empty: bool, collapse_single: bool) -> bool
    decreases t, 0nat, k,
{
    match t {
        LR1Parse::NonTerminal(_, cs) => if k == 0 || k > cs@.len() {
            true
        } else {
            &&& shape_upto(t, (k - 1) as nat, skip_empty, collapse_single)
            &&& shape_ok(cs@[k - 1], skip_empty, collapse_single)
            &&& !(skip_empty && cs@[k - 1] is Empty)
        },
        _ => true,
    }
}

proof fn lemma_shape_upto(name: String, cs: Vec<LR1Parse>, k: nat, se: bool, cl: bool)
    requires
        k <= cs@.len(),
        forall|j: int| 0 <= j < cs@.len() ==> shape_ok(#[trigger] cs@[j], se, cl) && !(se && cs@[j] is Empty),
    ensures
        shape_upto(LR1Parse::NonTerminal(name, cs), k, se, cl),
    decreases k,
{
    if k > 0 {
        lemma_shape_upto(name, cs, (k - 1) as nat, se, cl);
    }
}

/// Every tree on a node stack follows the shaping rules.
pub open spec fn all_shaped(ns: Seq<Option<LR1Parse>>, se: bool, cl: bool) -> bool {
    forall|k: int| 0 <= k < ns.len() ==> (#[trigger] ns[k] matches Some(t) ==> shape_ok(t, se, cl))
}

/// Every entry of a node stack holds a tree.
pub open spec fn all_some(ns: Seq<Option<LR1Parse>>) -> bool {
    forall|k: int| 0 <= k < ns.len() ==> (#[trigger] ns[k]) is Some
}

/// Terminals in order, not overlapping, each non-empty, within `input[..bound]`,
/// each holding the bytes of its span.
pub open spec fn leaves_ok(ls: Seq<Leaf>, input: Seq<u8>, bound: nat) -> bool {
    &&& forall|k: int|
        0 <= k < ls.len() ==> {
            &&& (#[trigger] ls[k]).0 < ls[k].1 <= bound
            &&& bound <= input.len()
            &&& ls[k].2 == input.subrange(ls[k].0 as int, ls[k].1 as int)
        }
    &&& forall|k: int| 0 < k < ls.len() ==> ls[k - 1].1 <= (#[trigger] ls[k]).0
}

proof fn lemma_leaves_upto(name: String, cs: Vec<LR1Parse>, k: nat)
    requires
        k <= cs@.len(),
    ensures
        leaves_upto(LR1Parse::NonTerminal(name, cs), k) == leaves_of(cs@.take(k as int)),
    decreases k,
{
    if k > 0 {
        lemma_leaves_upto(name, cs, (k - 1) as nat);
        assert(cs@.take(k as int).drop_last() =~= cs@.take(k - 1));
    } else {
        assert(cs@.take(0) =~= Seq::<LR1Parse>::empty());
    }
}

proof fn lemma_forest_concat(a: Seq<Option<LR1Parse>>, b: Seq<Option<LR1Parse>>)
    ensures
        forest(a + b) == forest(a) + forest(b),
    decreases b.len(),
{
    if b.len() == 0 {
        assert(a + b =~= a);
        assert(forest(a) + forest(b) =~= forest(a));
    } else {
        assert((a + b).drop_last() =~= a + b.drop_last());
        lemma_forest_concat(a, b.drop_last());
        assert(forest(a) + forest(b) =~= forest(a) + forest(b.drop_last()) + opt_leaves(b.last()));
    }
}

/// Why an input could not be parsed.
#[derive(Debug, Clone, Copy, PartialEq, Eq, Structural)]
pub enum ParseError {
    /// No prefix of the input ending at a token boundary is accepted; reading
    /// the input fails after this many bytes (or reads all of it).
    NoPrefix(usize),
    /// No token matches the input from this byte offset on.
    NoToken(usize),
    /// The input is not accepted as a whole.
    Incomplete,
}

/// Why a parser could not be built.
#[derive(Debug, Clone, Copy, PartialEq, Eq, Structural)]
pub enum ParserError {
    /// The tables or the lexer are malformed or do not fit together.
    Tables,
    /// There is not one name per token and one per nonterminal.
    Names,
}

/// An LR(1) parser producing trees for inputs and for their longest accepted prefixes.
pub struct LR1GrammarParser {
    pub engine: LR1Engine,
    /// The name of each token.
    pub terminal_names: Vec<String>,
    /// The name of each nonterminal.
    pub nonterminal_names: Vec<String>,
}

/// Tokens with spans `(start, end)` that cover `0..n` in order, each span non-empty.
pub open spec fn tiles(toks: Seq<(usize, (usize, usize))>, n: nat, num_tokens: nat) -> bool {
    &&& forall|k: int| 0 <= k < toks.len() ==> {
        &&& (#[trigger] toks[k]).0 < num_tokens
        &&& toks[k].1.0 < toks[k].1.1
    }
    &&& forall|k: int| 0 < k < toks.len() ==> (#[trigger] toks[k]).1.0 == toks[k - 1].1.1
    &&& toks.len() == 0 ==> n == 0
    &&& toks.len() > 0 ==> toks[0].1.0 == 0 && toks.last().1.1 == n
}

proof fn lemma_run_bytes_snoc(e: &LR1Engine, m: LR1Model, u: Seq<u8>, b: u8)
    ensures
        e.run_bytes(m, u.push(b)) == match e.run_bytes(m, u) {
            Some(m2) => e.advance(m2, b),
            None => None,
        },
    decreases u.len(),
{
    if u.len() == 0 {
        assert(u.push(b) =~= seq![b]);
        assert(seq![b].drop_first() =~= Seq::<u8>::empty());
        match e.advance(m, b) {
            Some(m2) => {
                assert(e.run_bytes(m2, Seq::<u8>::empty()) == Some(m2));
            },
            None => {},
        }
    } else {
        assert(u.push(b)[0] == u[0]);
        assert(u.push(b).drop_first() =~= u.drop_first().push(b));
        match e.advance(m, u[0]) {
            Some(m2) => lemma_run_bytes_snoc(e, m2, u.drop_first(), b),
            None => {},
        }
    }
}

impl LR1GrammarParser {
    pub open spec fn wf(&self) -> bool {
        &&& self.engine.wf()
        &&& self.terminal_names@.len() == self.engine.lexer.num_tokens()
        &&& self.nonterminal_names@.len() == self.engine.table.num_nonterminals
    }

    /// The bytes read so far end with a grammar token, or nothing is pending.
    pub open spec fn at_token_end(&self, m: LR1Model) -> bool {
        match m.lex {
            None => true,
            Some(l) => match self.engine.lexer.token@[l as int] {
                Some(t) => !self.engine.lexer.skippable@[t as int],
                None => false,
            },
        }
    }

    /// The first `p` bytes of `input` are accepted, and either they are all of
    /// it or they end with a grammar token.
    pub open spec fn is_boundary(&self, input: Seq<u8>, p: int) -> bool {
        &&& 0 <= p <= input.len()
        &&& match self.engine.run_bytes(self.engine.start_model(), input.take(p)) {
            Some(m) => self.engine.accepts_model(m) && (p == input.len() || self.at_token_end(m)),
            None => false,
        }
    }

    /// The bytes of `tok`'s span are matched by the lexer as `tok`'s token.
    pub open spec fn matches_token(&self, input: Seq<u8>, tok: (usize, (usize, usize))) -> bool {
        &&& tok.1.0 <= tok.1.1 <= input.len()
        &&& self.engine.lexer.token@[self.engine.lexer.dfa.run_spec(
            self.engine.lexer.dfa.start as nat,
            input.subrange(tok.1.0 as int, tok.1.1 as int),
        ) as int] == Some(tok.0)
    }

    /// No token matches exactly the `l` bytes of `input` from `pos`.
    pub open spec fn no_token(&self, input: Seq<u8>, pos: int, l: int) -> bool {
        self.engine.lexer.token@[self.engine.lexer.dfa.run_spec(
            self.engine.lexer.dfa.start as nat,
            input.subrange(pos, pos + l),
        ) as int] is None
    }

    /// No token matches any of the bytes of `input` from `p` on.
    pub open spec fn stuck_at(&self, input: Seq<u8>, p: int) -> bool {
        &&& 0 <= p < input.len()
        &&& forall|l: int| 1 <= l <= input.len() - p ==> #[trigger] self.no_token(input, p, l)
    }

    /// `w` is one whole token of the lexer, and a skippable one.
    pub open spec fn is_skip_token(&self, w: Seq<u8>) -> bool {
        &&& w.len() > 0
        &&& match self.engine.lexer.token@[self.engine.lexer.dfa.run_spec(
            self.engine.lexer.dfa.start as nat,
            w,
        ) as int] {
            Some(t) => self.engine.lexer.skippable@[t as int],
            None => false,
        }
    }

    /// `w` splits into skippable tokens.
    pub open spec fn skip_text(&self, w: Seq<u8>) -> bool
        decreases w.len(),
    {
        w.len() == 0 || exists|k: int|
            1 <= k <= w.len() && #[trigger] self.is_skip_token(w.take(k)) && self.skip_text(w.skip(k))
    }

    /// Between consecutive terminals, before the first and after the last up to
    /// `bound`, the input holds only skippable tokens.
    pub open spec fn gaps_skippable(&self, ls: Seq<Leaf>, input: Seq<u8>, bound: nat) -> bool {
        &&& ls.len() == 0 ==> self.skip_text(input.subrange(0, bound as int))
        &&& ls.len() > 0 ==> {
            &&& self.skip_text(input.subrange(0, ls[0].0 as int))
            &&& self.skip_text(input.subrange(ls.last().1 as int, bound as int))
            &&& forall|k: int|
                0 < k < ls.len() ==> self.skip_text(#[trigger] input.subrange(ls[k - 1].1 as int, ls[k].0 as int))
        }
    }

    /// The terminals of a node stack are in order within `input[..bound]`, with
    /// only skippable tokens around and between them.
    #[verifier::opaque]
    pub open spec fn stack_text_ok(&self, ns: Seq<Option<LR1Parse>>, input: Seq<u8>, bound: nat) -> bool {
        leaves_ok(forest(ns), input, bound) && self.gaps_skippable(forest(ns), input, bound)
    }

    proof fn lemma_skip_text_append(&self, a: Seq<u8>, b: Seq<u8>)
        requires
            self.skip_text(a),
            self.is_skip_token(b),
        ensures
            self.skip_text(a + b),
        decreases a.len(),
    {
        if a.len() == 0 {
            assert(a + b =~= b);
            assert(b.take(b.len() as int) =~= b);
            assert(b.skip(b.len() as int) =~= Seq::<u8>::empty());
            assert(self.skip_text(Seq::<u8>::empty()));
            assert(self.is_skip_token((a + b).take(b.len() as int)));
        } else {
            let k = choose|k: int| 1 <= k <= a.len() && #[trigger] self.is_skip_token(a.take(k)) && self.skip_text(a.skip(k));
            self.lemma_skip_text_append(a.skip(k), b);
            assert((a + b).take(k) =~= a.take(k));
            assert((a + b).skip(k) =~= a.skip(k) + b);
            assert(self.is_skip_token((a + b).take(k)));
        }
    }

    /// Builds a parser; `terminal_names` names the lexer's tokens and
    /// `nonterminal_names` the table's nonterminals.
    pub fn new(
        table: ParseTable,
        lexer: Lexer,
        terminal_names: Vec<String>,
        nonterminal_names: Vec<String>,
    ) -> (r: Result<Self, ParserError>)
        requires
            lexer.wf(),
        ensures
            (table.wf() && lexer.num_tokens() <= table.eoi) ==> (r == Err::<Self, ParserError>(ParserError::Names)
                <==> (terminal_names@.len() != lexer.num_tokens() || nonterminal_names@.len()
                != table.num_nonterminals)),
            (table.wf() && lexer.num_tokens() <= table.eoi) ==> (r is Ok || r == Err::<Self, ParserError>(ParserError::Names)),
            !(table.wf() && lexer.num_tokens() <= table.eoi) ==> r == Err::<Self, ParserError>(ParserError::Tables),
            r matches Ok(p) ==> p.wf() && p.engine.table == table && p.engine.lexer == lexer,
    {
        if !table.is_well_formed() || lexer.skippable.len() > table.eoi {
            return Err(ParserError::Tables);
        }
        if terminal_names.len() != lexer.skippable.len() || nonterminal_names.len() != table.num_nonterminals {
            return Err(ParserError::Names);
        }
        Ok(LR1GrammarParser { engine: LR1Engine { table, lexer, exact: true }, terminal_names, nonterminal_names })
    }

    /// The first `at` bytes of `input` are read without failure, and reading
    /// fails at the next byte unless `at` is the whole input.
    pub open spec fn reads_up_to(&self, input: Seq<u8>, at: int) -> bool {
        &&& 0 <= at <= input.len()
        &&& self.engine.run_bytes(self.engine.start_model(), input.take(at)) is Some
        &&& at < input.len() ==> self.engine.run_bytes(self.engine.start_model(), input.take(at + 1)) is None
    }

    /// How many bytes of `input` are read before reading fails.
    pub fn read_extent(&self, input: &[u8]) -> (r: usize)
        requires
            self.wf(),
        ensures
            self.reads_up_to(input@, r as int),
    {
        let mut st = self.engine.start_state();
        let ghost start = self.engine.start_model();
        let mut i: usize = 0;
        assert(input@.take(0) =~= Seq::<u8>::empty());
        while i < input.len()
            invariant
                self.wf(),
                i <= input@.len(),
                self.engine.model_wf(st@),
                start == self.engine.start_model(),
                self.engine.run_bytes(start, input@.take(i as int)) == Some(st@),
            decreases input@.len() - i,
        {
            proof {
                assert(input@.take(i + 1) =~= input@.take(i as int).push(input@[i as int]));
                lemma_run_bytes_snoc(&self.engine, start, input@.take(i as int), input@[i as int]);
            }
            if !self.engine.advance_exec(&mut st, input[i]) {
                return i;
            }
            i = i + 1;
        }
        i
    }

    /// The end of the longest prefix of `input` that `is_boundary` admits.
    pub fn longest_prefix(&self, input: &[u8]) -> (r: Option<usize>)
        requires
            self.wf(),
        ensures
            match r {
                Some(end) => self.is_boundary(input@, end as int) && forall|p: int|
                    end < p <= input@.len() ==> !#[trigger] self.is_boundary(input@, p),
                None => forall|p: int| 0 <= p <= input@.len() ==> !#[trigger] self.is_boundary(input@, p),
            },
    {
        let mut st = self.engine.start_state();
        let ghost start = self.engine.start_model();
        let mut best: Option<usize> = None;
        let mut i: usize = 0;
        assert(input@.take(0) =~= Seq::<u8>::empty());
        loop
            invariant
                self.wf(),
                i <= input@.len(),
                self.engine.model_wf(st@),
                start == self.engine.start_model(),
                self.engine.run_bytes(start, input@.take(i as int)) == Some(st@),
                match best {
                    Some(end) => end <= i && self.is_boundary(input@, end as int) && forall|p: int|
                        end < p < i ==> !#[trigger] self.is_boundary(input@, p),
                    None => forall|p: int| 0 <= p < i ==> !#[trigger] self.is_boundary(input@, p),
                },
            decreases input@.len() - i,
        {
            let here = self.engine.accepts_exec(&st) && (i == input.len() || self.at_token_end_exec(&st));
            if here {
                best = Some(i);
            }
            if i == input.len() {
                return best;
            }
            proof {
                assert(input@.take(i + 1) =~= input@.take(i as int).push(input@[i as int]));
                lemma_run_bytes_snoc(&self.engine, start, input@.take(i as int), input@[i as int]);
            }
            if !self.engine.advance_exec(&mut st, input[i]) {
                proof {
                    assert forall|p: int| i < p <= input@.len() implies !#[trigger] self.is_boundary(input@, p) by {
                        if self.engine.run_bytes(start, input@.take(p)) is Some {
                            assert(input@.take(i + 1) + input@.subrange(i + 1, p) =~= input@.take(p));
                            lemma_run_bytes_prefix(
                                &self.engine,
                                start,
                                input@.take(i + 1),
                                input@.subrange(i + 1, p),
                            );
                        }
                    }
                }
                return best;
            }
            i = i + 1;
        }
    }

    /// The longest token that the lexer matches in `input[pos..end]` from `pos`,
    /// with its length.
    fn longest_match(&self, input: &[u8], pos: usize, end: usize) -> (r: Option<(usize, usize)>)
        requires
            self.wf(),
            pos < end <= input@.len(),
        ensures
            r matches Some((t, len)) ==> t < self.engine.lexer.num_tokens() && 1 <= len <= end - pos
                && self.engine.lexer.token@[self.engine.lexer.dfa.run_spec(
                self.engine.lexer.dfa.start as nat,
                input@.subrange(pos as int, pos + len),
            ) as int] == Some(t),
            r is None ==> forall|l: int| 1 <= l <= end - pos ==> #[trigger] self.no_token(input@, pos as int, l),
    {
        let lexer = &self.engine.lexer;
        let mut q = lexer.dfa.start;
        let mut best: Option<(usize, usize)> = None;
        let mut i: usize = pos;
        assert(input@.subrange(pos as int, pos as int) =~= Seq::<u8>::empty());
        while i < end
            invariant
                self.wf(),
                *lexer == self.engine.lexer,
                end <= input@.len(),
                pos <= i <= end,
                q < lexer.dfa.num_states(),
                q == lexer.dfa.run_spec(lexer.dfa.start as nat, input@.subrange(pos as int, i as int)),
                best matches Some((t, len)) ==> t < lexer.num_tokens() && 1 <= len <= end - pos
                    && lexer.token@[lexer.dfa.run_spec(
                    lexer.dfa.start as nat,
                    input@.subrange(pos as int, pos + len),
                ) as int] == Some(t),
                best is None ==> forall|l: int| 1 <= l <= i - pos ==> #[trigger] self.no_token(input@, pos as int, l),
            decreases end - i,
        {
            proof {
                let u = input@.subrange(pos as int, i as int);
                let b = input@[i as int];
                assert(input@.subrange(pos as int, i + 1) =~= u + seq![b]);
                crate::dfa::lemma_run_in_concat(lexer.dfa.next@, lexer.dfa.start as nat, u, seq![b]);
                assert(seq![b][0] == b);
                assert(seq![b].drop_first() =~= Seq::<u8>::empty());
                let s0 = crate::dfa::step_in(lexer.dfa.next@, q as nat, b);
                assert(crate::dfa::run_in(lexer.dfa.next@, s0, Seq::<u8>::empty()) == s0);
            }
            q = lexer.dfa.next[q][input[i] as usize];
            assert(q == lexer.dfa.run_spec(lexer.dfa.start as nat, input@.subrange(pos as int, i + 1)));
            if !lexer.dfa.live[q] {
                proof {
                    if best is None {
                    assert forall|l: int| 1 <= l <= end - pos implies #[trigger] self.no_token(input@, pos as int, l) by {
                        if l > i - pos {
                            let v = input@.subrange(i + 1, pos + l);
                            assert(input@.subrange(pos as int, pos + l) =~= input@.subrange(pos as int, i + 1) + v);
                            crate::dfa::lemma_run_in_concat(
                                lexer.dfa.next@,
                                lexer.dfa.start as nat,
                                input@.subrange(pos as int, i + 1),
                                v,
                            );
                            crate::dfa::lemma_dead_stays_dead(&lexer.dfa, q as nat, v);
                            let z = lexer.dfa.run_spec(q as nat, v);
                            crate::dfa::lemma_run_in_bounds(lexer.dfa.next@, q as nat, v);
                            if lexer.dfa.accepting@[z as int] {
                                assert(lexer.dfa.accepting@[crate::dfa::run_in(lexer.dfa.next@, z, Seq::<u8>::empty()) as int]);
                            }
                            assert(!lexer.dfa.accepting@[z as int]);
                            assert(z == lexer.dfa.run_spec(lexer.dfa.start as nat, input@.subrange(pos as int, pos + l)));
                        }
                    }
                    }
                }
                return best;
            }
            i = i + 1;
            match lexer.token[q] {
                Some(t) => {
                    best = Some((t, i - pos));
                },
                None => {},
            }
        }
        best
    }

    /// Replaces the last `len` nodes (or all, when fewer) by the node of a
    /// reduction to `lhs`; the terminals of the stack stay as they were.
    fn reduce_nodes(
        &self,
        nodes: &mut Vec<Option<LR1Parse>>,
        lhs: usize,
        len: usize,
        skip_empty: bool,
        collapse_single: bool,
    )
        requires
            self.wf(),
            lhs < self.engine.table.num_nonterminals,
        ensures
            forest(final(nodes)@) == forest(old(nodes)@),
            len <= old(nodes)@.len() ==> final(nodes)@.len() == old(nodes)@.len() - len + 1,
            all_some(old(nodes)@) ==> all_some(final(nodes)@),
            all_shaped(old(nodes)@, skip_empty, collapse_single) ==> all_shaped(
                final(nodes)@,
                skip_empty,
                collapse_single,
            ),
    {
        let name = self.nonterminal_names[lhs].clone();
        if len == 0 {
            let ghost o = nodes@;
            nodes.push(Some(LR1Parse::Empty(name)));
            assert(nodes@.drop_last() =~= o);
            assert forall|k: int| 0 <= k < nodes@.len() && all_shaped(o, skip_empty, collapse_single) implies (
            #[trigger] nodes@[k] matches Some(t) ==> shape_ok(t, skip_empty, collapse_single)) by {
                if k < o.len() {
                    assert(nodes@[k] == o[k]);
                }
            }
            assert(forest(nodes@) =~= forest(o));
            return;
        }
        let ghost o = nodes@;
        let m = if len <= nodes.len() {
            nodes.len() - len
        } else {
            0
        };
        let mut tail = nodes.split_off(m);
        let ghost seg = tail@;
        proof {
            assert(o =~= nodes@ + seg);
            lemma_forest_concat(nodes@, seg);
            assert(seg =~= Seq::<Option<LR1Parse>>::empty() + seg);
        }
        let mut children: Vec<LR1Parse> = Vec::new();
        let ghost shaped = all_shaped(o, skip_empty, collapse_single);
        proof {
            if shaped {
                assert forall|k: int| 0 <= k < tail@.len() implies (#[trigger] tail@[k] matches Some(t) ==> shape_ok(t, skip_empty, collapse_single)) by {
                    assert(tail@[k] == o[m + k]);
                }
            }
        }
        while tail.len() > 0
            invariant
                leaves_of(children@) + forest(tail@) == forest(seg),
                shaped ==> all_shaped(tail@, skip_empty, collapse_single),
                shaped ==> forall|j: int|
                    0 <= j < children@.len() ==> shape_ok(#[trigger] children@[j], skip_empty, collapse_single)
                        && !(skip_empty && children@[j] is Empty),
            decreases tail@.len(),
        {
            let ghost before = tail@;
            let first = tail.remove(0);
            proof {
                if shaped {
                    assert(before[0] == first);
                    assert forall|k: int| 0 <= k < tail@.len() implies (#[trigger] tail@[k] matches Some(t) ==> shape_ok(t, skip_empty, collapse_single)) by {
                        assert(tail@[k] == before[k + 1]);
                    }
                }
            }
            let ghost fl = opt_leaves(first);
            proof {
                assert(before =~= seq![first] + tail@);
                lemma_forest_concat(seq![first], tail@);
                assert(seq![first].drop_last() =~= Seq::<Option<LR1Parse>>::empty());
                assert(seq![first].last() == first);
                assert(forest(Seq::<Option<LR1Parse>>::empty()) == Seq::<Leaf>::empty());
                assert(forest(seq![first]) =~= fl);
                assert(forest(before) == fl + forest(tail@));
            }
            match first {
                Some(n) => {
                    let ghost c0 = children@;
                    if skip_empty && matches!(n, LR1Parse::Empty(_)) {
                        assert(leaves(n) =~= Seq::<Leaf>::empty());
                        assert(fl + forest(tail@) =~= forest(tail@));
                        continue;
                    }
                    children.push(n);
                    proof {
                        if shaped {
                            assert(before[0] == Some(n));
                            assert forall|j: int| 0 <= j < children@.len() implies shape_ok(
                                #[trigger] children@[j],
                                skip_empty,
                                collapse_single,
                            ) && !(skip_empty && children@[j] is Empty) by {
                                if j < c0.len() {
                                    assert(children@[j] == c0[j]);
                                }
                            }
                        }
                        assert(children@.drop_last() =~= c0);
                        assert(children@.last() == n);
                        assert(leaves_of(children@) == leaves_of(c0) + leaves(n));
                        assert(leaves_of(c0) + leaves(n) + forest(tail@) =~= leaves_of(c0) + (leaves(n) + forest(
                            tail@,
                        )));
                    }
                },
                None => {
                    assert(fl =~= Seq::<Leaf>::empty());
                    assert(fl + forest(tail@) =~= forest(tail@));
                },
            }
        }
        assert(leaves_of(children@) =~= forest(seg));
        let ghost kept = nodes@;
        let node = if collapse_single && children.len() == 1 {
            let ghost c0 = children@;
            match children.pop() {
                Some(only) => {
                    proof {
                        assert(c0.drop_last() =~= Seq::<LR1Parse>::empty());
                        assert(c0.last() == only);
                        assert(leaves_of(Seq::<LR1Parse>::empty()) == Seq::<Leaf>::empty());
                        assert(leaves_of(c0) =~= leaves(only));
                    }
                    only
                },
                None => LR1Parse::NonTerminal(name, Vec::new()),
            }
        } else {
            proof {
                lemma_leaves_upto(name, children, children@.len());
                assert(children@.take(children@.len() as int) =~= children@);
                if shaped {
                    lemma_shape_upto(name, children, children@.len(), skip_empty, collapse_single);
                }
            }
            let n = LR1Parse::NonTerminal(name, children);
            assert(leaves(n) == forest(seg));
            n
        };
        assert(leaves(node) == forest(seg));
        assert(shaped ==> shape_ok(node, skip_empty, collapse_single));
        nodes.push(Some(node));
        assert(nodes@.drop_last() =~= kept);
        assert forall|k: int| 0 <= k < nodes@.len() && shaped implies (#[trigger] nodes@[k] matches Some(t)
            ==> shape_ok(t, skip_empty, collapse_single)) by {
            if k < kept.len() {
                assert(nodes@[k] == o[k]);
            }
        }
    }

    /// Feeds `t` to the parser as `ParseTable::feed_terminal` does, building the
    /// tree alongside: each reduction replaces the nodes it pops by one node, and
    /// a shift pushes `leaf`.
    fn feed_tree(
        &self,
        stack: &mut Vec<usize>,
        nodes: &mut Vec<Option<LR1Parse>>,
        t: usize,
        leaf: Option<LR1Parse>,
        skip_empty: bool,
        collapse_single: bool,
    ) -> (r: FeedOutcome)
        requires
            self.wf(),
            self.engine.table.stack_wf(old(stack)@),
            t < self.engine.table.num_terminals,
            old(nodes)@.len() + 1 == old(stack)@.len(),
        ensures
            (r == FeedOutcome::Accepted || (r == FeedOutcome::Shifted && leaf is Some))
                ==> final(nodes)@.len() + 1 == final(stack)@.len(),
            r == FeedOutcome::Accepted ==> final(stack)@.len() == 2,
            all_some(old(nodes)@) ==> all_some(final(nodes)@),
            all_shaped(old(nodes)@, skip_empty, collapse_single) && (leaf matches Some(x) ==> shape_ok(
                x,
                skip_empty,
                collapse_single,
            )) ==> all_shaped(final(nodes)@, skip_empty, collapse_single),
            match self.engine.table.feeds(old(stack)@, t) {
                Fed::Shifted(s) => r == FeedOutcome::Shifted && final(stack)@ == s,
                Fed::Accepted => r == FeedOutcome::Accepted,
                Fed::Failed => r == FeedOutcome::Failed,
            },
            self.engine.table.stack_wf(final(stack)@),
            r == FeedOutcome::Shifted ==> forest(final(nodes)@) == forest(old(nodes)@) + opt_leaves(leaf),
            r != FeedOutcome::Shifted ==> forest(final(nodes)@) == forest(old(nodes)@),
    {
        let table = &self.engine.table;
        let ghost orig = stack@;
        let mut fuel: usize = REDUCTION_LIMIT;
        while fuel > 0
            invariant
                self.wf(),
                *table == self.engine.table,
                table.stack_wf(stack@),
                t < table.num_terminals,
                orig == old(stack)@,
                table.feed(stack@, t, fuel as nat) == table.feeds(orig, t),
                forest(nodes@) == forest(old(nodes)@),
                nodes@.len() + 1 == stack@.len(),
                all_some(old(nodes)@) ==> all_some(nodes@),
                all_shaped(old(nodes)@, skip_empty, collapse_single) && (leaf matches Some(x) ==> shape_ok(
                    x,
                    skip_empty,
                    collapse_single,
                )) ==> all_shaped(nodes@, skip_empty, collapse_single),
            decreases fuel,
        {
            let top = stack[stack.len() - 1];
            let act = table.action[top][t];
            assert(act == table.action@[stack@.last() as int]@[t as int]);
            match act {
                Action::Shift(s) => {
                    stack.push(s);
                    let ghost n0 = nodes@;
                    match leaf {
                        Some(n) => {
                            nodes.push(Some(n));
                            assert(nodes@.drop_last() =~= n0);
                            assert forall|k: int| 0 <= k < nodes@.len() && all_shaped(n0, skip_empty, collapse_single)
                                && shape_ok(n, skip_empty, collapse_single) implies (#[trigger] nodes@[k] matches Some(x)
                                ==> shape_ok(x, skip_empty, collapse_single)) by {
                                if k < n0.len() {
                                    assert(nodes@[k] == n0[k]);
                                }
                            }
                        },
                        None => {
                            assert(forest(n0) + opt_leaves(None) =~= forest(n0));
                        },
                    }
                    return FeedOutcome::Shifted;
                },
                Action::Accept => {
                    if stack.len() == 2 {
                        return FeedOutcome::Accepted;
                    }
                    return FeedOutcome::Failed;
                },
                Action::Error => {
                    return FeedOutcome::Failed;
                },
                Action::Reduce(r) => {
                    let rule = table.rules[r];
                    if rule.len >= stack.len() {
                        return FeedOutcome::Failed;
                    }
                    let keep = stack.len() - rule.len;
                    let ghost base = stack@.subrange(0, keep as int);
                    stack.truncate(keep);
                    assert(stack@ == base);
                    let g = match table.goto[stack[keep - 1]][rule.lhs] {
                        Some(g) => g,
                        None => {
                            return FeedOutcome::Failed;
                        },
                    };
                    self.reduce_nodes(nodes, rule.lhs, rule.len, skip_empty, collapse_single);
                    stack.push(g);
                    fuel = fuel - 1;
                },
            }
        }
        FeedOutcome::Failed
    }

    /// Commits the token `t` made of the first `len` pending bytes, which start
    /// at `tok_start` in `input`: a grammar token is fed to the parser with its
    /// terminal node, a skippable one only moves on.
    #[verifier::rlimit(100)]
    #[verifier::spinoff_prover]
    fn commit_leaf(
        &self,
        stack: &mut Vec<usize>,
        nodes: &mut Vec<Option<LR1Parse>>,
        t: usize,
        pending: &Vec<u8>,
        len: usize,
        tok_start: usize,
        input: Ghost<Seq<u8>>,
        skip_empty: bool,
        collapse_single: bool,
    ) -> (ok: bool)
        requires
            self.wf(),
            self.engine.table.stack_wf(old(stack)@),
            old(nodes)@.len() + 1 == old(stack)@.len(),
            t < self.engine.lexer.num_tokens(),
            1 <= len <= pending@.len(),
            tok_start + pending@.len() <= input@.len(),
            tok_start + pending@.len() <= usize::MAX,
            pending@ == input@.subrange(tok_start as int, tok_start + pending@.len()),
            self.engine.lexer.token@[self.engine.lexer.dfa.run_spec(
                self.engine.lexer.dfa.start as nat,
                pending@.take(len as int),
            ) as int] == Some(t),
            self.stack_text_ok(old(nodes)@, input@, tok_start as nat),
        ensures
            ok == self.engine.commit(old(stack)@, t) is Some,
            ok ==> Some(final(stack)@) == self.engine.commit(old(stack)@, t),
            ok ==> self.engine.table.stack_wf(final(stack)@),
            ok ==> final(nodes)@.len() + 1 == final(stack)@.len(),
            all_some(old(nodes)@) ==> all_some(final(nodes)@),
            all_shaped(old(nodes)@, skip_empty, collapse_single) ==> all_shaped(
                final(nodes)@,
                skip_empty,
                collapse_single,
            ),
            ok ==> self.stack_text_ok(final(nodes)@, input@, (tok_start + len) as nat),
            ok && !self.engine.lexer.skippable@[t as int] ==> forest(final(nodes)@).len() > 0 && forest(
                final(nodes)@,
            ).last().1 == tok_start + len,
    {
        reveal(LR1GrammarParser::stack_text_ok);
        let ghost piece = input@.subrange(tok_start as int, tok_start + len);
        assert(pending@.take(len as int) =~= piece);
        let ghost f0 = forest(nodes@);
        if self.engine.lexer.skippable[t] {
            proof {
                assert(self.is_skip_token(piece));
                let from: int = if f0.len() == 0 {
                    0
                } else {
                    f0.last().1 as int
                };
                assert(input@.subrange(from, tok_start + len) =~= input@.subrange(from, tok_start as int)
                    + piece);
                self.lemma_skip_text_append(input@.subrange(from, tok_start as int), piece);
                assert forall|k: int| 0 <= k < f0.len() implies {
                    &&& (#[trigger] f0[k]).0 < f0[k].1 <= tok_start + len
                    &&& tok_start + len <= input@.len()
                    &&& f0[k].2 == input@.subrange(f0[k].0 as int, f0[k].1 as int)
                } by {}
            }
            return true;
        }
        let mut bytes: Vec<u8> = Vec::new();
        let mut k: usize = 0;
        while k < len
            invariant
                len <= pending@.len(),
                k <= len,
                bytes@ == pending@.subrange(0, k as int),
            decreases len - k,
        {
            bytes.push(pending[k]);
            k = k + 1;
            assert(bytes@ =~= pending@.subrange(0, k as int));
        }
        assert(bytes@ =~= piece);
        let ghost lf: Leaf = (tok_start, (tok_start + len) as usize, bytes@);
        let leaf = LR1Parse::Terminal(self.terminal_names[t].clone(), (tok_start, tok_start + len), bytes);
        match self.feed_tree(stack, nodes, t, Some(leaf), skip_empty, collapse_single) {
            FeedOutcome::Shifted => {},
            _ => {
                return false;
            },
        }
        proof {
            assert(forest(nodes@) =~= f0.push(lf));
            let f = forest(nodes@);
            assert forall|k: int| 0 <= k < f.len() implies {
                &&& (#[trigger] f[k]).0 < f[k].1 <= tok_start + len
                &&& tok_start + len <= input@.len()
                &&& f[k].2 == input@.subrange(f[k].0 as int, f[k].1 as int)
            } by {
                if k < f0.len() {
                    assert(f[k] == f0[k]);
                }
            }
            assert forall|k: int| 0 < k < f.len() implies f[k - 1].1 <= (#[trigger] f[k]).0 by {
                if k < f0.len() {
                    assert(f[k] == f0[k]);
                    assert(f[k - 1] == f0[k - 1]);
                } else {
                    assert(f[k - 1] == f0[k - 1]);
                }
            }
            assert(input@.subrange(tok_start + len, tok_start + len) =~= Seq::<u8>::empty());
            assert(self.skip_text(Seq::<u8>::empty()));
            if f0.len() > 0 {
                assert(f[0] == f0[0]);
                assert forall|k: int|
                    0 < k < f.len() implies self.skip_text(
                    #[trigger] input@.subrange(f[k - 1].1 as int, f[k].0 as int),
                ) by {
                    if k < f0.len() {
                        assert(f[k] == f0[k]);
                        assert(f[k - 1] == f0[k - 1]);
                    } else {
                        assert(f[k - 1] == f0[k - 1]);
                    }
                }
            }
        }
        true
    }

    #[verifier::rlimit(100)]
    #[verifier::spinoff_prover]
    /// Reads `input[..end]` as the engine does (see `LR1Engine::raw`), committing
    /// tokens with their terminal nodes and building nonterminal nodes on each
    /// reduction, then commits the pending token and ends the input.
    fn build_tree(&self, input: &[u8], end: usize, skip_empty: bool, collapse_single: bool) -> (r: Option<LR1Parse>)
        requires
            self.wf(),
            end <= input@.len(),
        ensures
            r matches Some(t) ==> leaves_ok(leaves(t), input@, end as nat) && self.gaps_skippable(
                leaves(t),
                input@,
                end as nat,
            ) && shape_ok(t, skip_empty, collapse_single),
            (self.engine.raw(self.engine.start_model(), input@.take(end as int)) matches Some(m) && end > 0
                && self.at_token_end(m)) ==> (r matches Some(t) ==> leaves(t).len() > 0 && leaves(t).last().1
                == end),
            (self.engine.raw(self.engine.start_model(), input@.take(end as int)) matches Some(m)
                && self.engine.accepts_model(m)) ==> r is Some,
    {
        let ghost target = self.engine.raw(self.engine.start_model(), input@.take(end as int));
        let ghost lstart = self.engine.lexer.dfa.start as nat;
        let ghost next = self.engine.lexer.dfa.next@;
        let mut st = self.engine.start_state();
        let mut nodes: Vec<Option<LR1Parse>> = Vec::new();
        let mut buf: Vec<u8> = Vec::new();
        let mut k: usize = 0;
        while k < end
            invariant
                end <= input@.len(),
                k <= end,
                buf@ == input@.subrange(0, k as int),
            decreases end - k,
        {
            buf.push(input[k]);
            k = k + 1;
            assert(buf@ =~= input@.subrange(0, k as int));
        }
        let mut pos: usize = 0;
        let mut tok_start: usize = 0;
        proof {
            assert(buf@.skip(0) =~= input@.take(end as int));
            assert(input@.subrange(0, 0) =~= Seq::<u8>::empty());
            assert(st@.pending =~= input@.subrange(0, 0));
            assert(buf@.skip(0) =~= input@.subrange(0, end as int));
            assert(self.skip_text(Seq::<u8>::empty()));
            reveal(LR1GrammarParser::stack_text_ok);
        }
        while pos < buf.len()
            invariant
                self.wf(),
                end <= input@.len(),
                lstart == self.engine.lexer.dfa.start as nat,
                next == self.engine.lexer.dfa.next@,
                self.engine.model_wf(st@),
                target == self.engine.raw(self.engine.start_model(), input@.take(end as int)),
                self.engine.raw(st@, buf@.skip(pos as int)) == target,
                pos <= buf@.len(),
                tok_start + st@.pending.len() <= end,
                st@.pending == input@.subrange(tok_start as int, tok_start + st@.pending.len()),
                buf@.skip(pos as int) == input@.subrange(tok_start + st@.pending.len(), end as int),
                st.lex matches Some(l) ==> l == run_in(next, lstart, st@.pending),
                st.matched matches Some((t, len)) ==> len <= st@.pending.len() && self.engine.lexer.token@[run_in(
                    next,
                    lstart,
                    st@.pending.take(len as int),
                ) as int] == Some(t),
                nodes@.len() + 1 == st@.stack.len(),
                all_some(nodes@),
                all_shaped(nodes@, skip_empty, collapse_single),
                self.stack_text_ok(nodes@, input@, tok_start as nat),
            decreases st@.pending.len() + (buf@.len() - pos), buf@.len() - pos,
        {
            let ghost rest = buf@.skip(pos as int);
            let ghost m = st@;
            assert(rest[0] == buf@[pos as int]);
            assert(rest.drop_first() =~= buf@.skip(pos + 1));
            let b = buf[pos];
            let l0 = match st.lex {
                Some(l) => l,
                None => self.engine.lexer.dfa.start,
            };
            proof {
                let p = m.pending;
                if p.len() == 0 {
                    assert(p =~= Seq::<u8>::empty());
                }
                assert(l0 == run_in(next, lstart, p));
                crate::dfa::lemma_run_in_bounds(next, lstart, p);
                crate::dfa::lemma_run_in_concat(next, lstart, p, seq![b]);
                assert(seq![b][0] == b);
                assert(seq![b].drop_first() =~= Seq::<u8>::empty());
                let s0 = step_in(next, l0 as nat, b);
                assert(run_in(next, s0, Seq::<u8>::empty()) == s0);
                assert(p + seq![b] =~= p.push(b));
                assert(input@[tok_start + p.len()] == b);
                assert(p.push(b) =~= input@.subrange(tok_start as int, tok_start + p.len() + 1));
            }
            let l1 = self.engine.lexer.dfa.next[l0][b as usize];
            st.pending.push(b);
            let m1 = match self.engine.lexer.token[l1] {
                Some(t) => Some((t, st.pending.len())),
                None => st.matched,
            };
            proof {
                assert(st@.pending.take(st@.pending.len() as int) =~= st@.pending);
                if let Some((t, len)) = m.matched {
                    assert(st@.pending.take(len as int) =~= m.pending.take(len as int));
                }
            }
            if self.engine.lexer.dfa.live[l1] {
                st.lex = Some(l1);
                st.matched = m1;
                pos = pos + 1;
            } else {
                match m1 {
                    None => {
                        assert(self.engine.raw(m, rest) is None);
                        return None;
                    },
                    Some((t, len)) => {
                        if len == 0 || len > st.pending.len() {
                            assert(self.engine.raw(m, rest) is None);
                            return None;
                        }
                        let ghost stack0 = st@.stack;
                        if !self.commit_leaf(
                            &mut st.stack,
                            &mut nodes,
                            t,
                            &st.pending,
                            len,
                            tok_start,
                            Ghost(input@),
                            skip_empty,
                            collapse_single,
                        ) {
                            assert(self.engine.commit(stack0, t) is None);
                            assert(self.engine.raw(m, rest) is None);
                            return None;
                        }
                        let ghost old_pending = st@.pending;
                        let nb = join_tails(&st.pending, len, &buf, pos + 1);
                        st.pending = Vec::new();
                        st.lex = None;
                        st.matched = None;
                        buf = nb;
                        pos = 0;
                        tok_start = tok_start + len;
                        proof {
                            assert(st@.pending =~= Seq::<u8>::empty());
                            assert(buf@.skip(0) =~= buf@);
                            assert(buf@ =~= input@.subrange(tok_start as int, end as int));
                            assert(st@.pending =~= input@.subrange(tok_start as int, tok_start as int));
                        }
                    },
                }
            }
        }
        proof {
            assert(buf@.skip(pos as int) =~= Seq::<u8>::empty());
            assert(target == Some(st@));
        }
        let ghost fin = st@;
        proof {
            if end > 0 {
                assert(input@.take(end as int).len() > 0);
                lemma_raw_pending(&self.engine, self.engine.start_model(), input@.take(end as int));
            }
            assert(tok_start + st@.pending.len() == end);
        }
        match st.lex {
            None => {},
            Some(l) => match self.engine.lexer.token[l] {
                None => {
                    return None;
                },
                Some(t) => {
                    let len = st.pending.len();
                    proof {
                        assert(st@.pending.take(len as int) =~= st@.pending);
                    }
                    if !self.commit_leaf(
                        &mut st.stack,
                        &mut nodes,
                        t,
                        &st.pending,
                        len,
                        tok_start,
                        Ghost(input@),
                        skip_empty,
                        collapse_single,
                    ) {
                        return None;
                    }
                    tok_start = tok_start + len;
                },
            },
        }
        let ghost want_last = end > 0 && self.at_token_end(fin);
        assert(want_last ==> forest(nodes@).len() > 0 && forest(nodes@).last().1 == end);
        let ghost f_before = forest(nodes@);
        match self.feed_tree(&mut st.stack, &mut nodes, self.engine.table.eoi, None, skip_empty, collapse_single) {
            FeedOutcome::Accepted => {
                let ghost n0 = nodes@;
                assert(forest(n0) == f_before);
                match nodes.pop() {
                    Some(Some(root)) => {
                        proof {
                            reveal(LR1GrammarParser::stack_text_ok);
                            assert(n0.drop_last() =~= Seq::<Option<LR1Parse>>::empty());
                            assert(n0.last() == Some(root));
                            assert(forest(Seq::<Option<LR1Parse>>::empty()) == Seq::<Leaf>::empty());
                            assert(forest(n0) =~= leaves(root));
                            assert(n0[0] == Some(root));
                        }
                        Some(root)
                    },
                    _ => None,
                }
            },
            _ => None,
        }
    }

    /// Parses the longest prefix of `input` that is accepted and ends with a
    /// grammar token (or is all of `input`), returning its tree and the bytes
    /// after it.
    pub fn prefix_parse(&self, input: &[u8], skip_empty: bool, collapse_single: bool) -> (r: Result<
        (LR1Parse, Vec<u8>),
        ParseError,
    >)
        requires
            self.wf(),
        ensures
            r matches Err(ParseError::NoPrefix(_)) <==> forall|p: int|
                0 <= p <= input@.len() ==> !#[trigger] self.is_boundary(input@, p),
            r is Ok || r matches Err(ParseError::NoPrefix(_)),
            r matches Err(ParseError::NoPrefix(at)) ==> self.reads_up_to(input@, at as int),
            (exists|p: int| 0 <= p <= input@.len() && #[trigger] self.is_boundary(input@, p)) ==> r is Ok,
            r matches Ok((tree, tail)) ==> {
                let end = input@.len() - tail@.len();
                &&& leaves_ok(leaves(tree), input@, end as nat)
                &&& self.gaps_skippable(leaves(tree), input@, end as nat)
                &&& shape_ok(tree, skip_empty, collapse_single)
                &&& (tail@.len() > 0 && end > 0 ==> leaves(tree).len() > 0 && leaves(tree).last().1 == end)
                &&& tail@.len() <= input@.len()
                &&& tail@ == input@.skip(end)
                &&& self.is_boundary(input@, end)
                &&& forall|p: int| end < p <= input@.len() ==> !#[trigger] self.is_boundary(input@, p)
            },
    {
        let end = match self.longest_prefix(input) {
            Some(e) => e,
            None => {
                return Err(ParseError::NoPrefix(self.read_extent(input)));
            },
        };
        proof {
            let m = self.engine.run_bytes(self.engine.start_model(), input@.take(end as int));
            lemma_run_bytes_raw(&self.engine, self.engine.start_model(), input@.take(end as int));
        }
        let tree = match self.build_tree(input, end, skip_empty, collapse_single) {
            Some(t) => t,
            None => {
                return Err(ParseError::NoPrefix(self.read_extent(input)));
            },
        };
        let mut tail: Vec<u8> = Vec::new();
        let mut k: usize = end;
        while k < input.len()
            invariant
                end <= k <= input@.len(),
                tail@ == input@.subrange(end as int, k as int),
            decreases input@.len() - k,
        {
            tail.push(input[k]);
            k = k + 1;
            assert(tail@ =~= input@.subrange(end as int, k as int));
        }
        assert(tail@ =~= input@.skip(end as int));
        Ok((tree, tail))
    }

    /// Parses all of `input`: succeeds exactly when the whole input is accepted,
    /// with the tree that `prefix_parse` gives for it.
    pub fn parse(&self, input: &[u8], skip_empty: bool, collapse_single: bool) -> (r: Result<LR1Parse, ParseError>)
        requires
            self.wf(),
        ensures
            r is Ok <==> self.is_boundary(input@, input@.len() as int),
            r matches Ok(tree) ==> leaves_ok(leaves(tree), input@, input@.len()) && self.gaps_skippable(
                leaves(tree),
                input@,
                input@.len(),
            ) && shape_ok(tree, skip_empty, collapse_single),
    {
        match self.prefix_parse(input, skip_empty, collapse_single) {
            Ok((tree, tail)) => {
                if tail.len() == 0 {
                    Ok(tree)
                } else {
                    Err(ParseError::Incomplete)
                }
            },
            Err(e) => Err(e),
        }
    }

    /// Splits `input` into tokens by longest match, skippable ones included,
    /// giving each token with its span; fails where no token matches.
    pub fn lex(&self, input: &[u8]) -> (r: Result<Vec<(usize, (usize, usize))>, ParseError>)
        requires
            self.wf(),
        ensures
            r matches Ok(toks) ==> tiles(toks@, input@.len(), self.engine.lexer.num_tokens()) && forall|k: int|
                0 <= k < toks@.len() ==> #[trigger] self.matches_token(input@, toks@[k]),
            r is Err ==> exists|p: int| #[trigger] self.stuck_at(input@, p),
            r matches Err(e) ==> (e matches ParseError::NoToken(p) && self.stuck_at(input@, p as int)),
    {
        let mut toks: Vec<(usize, (usize, usize))> = Vec::new();
        let mut pos: usize = 0;
        while pos < input.len()
            invariant
                self.wf(),
                pos <= input@.len(),
                tiles(toks@, pos as nat, self.engine.lexer.num_tokens()),
                forall|k: int| 0 <= k < toks@.len() ==> #[trigger] self.matches_token(input@, toks@[k]),
            decreases input@.len() - pos,
        {
            let (t, len) = match self.longest_match(input, pos, input.len()) {
                Some(m) => m,
                None => {
                    assert(self.stuck_at(input@, pos as int));
                    return Err(ParseError::NoToken(pos));
                },
            };
            let ghost old_toks = toks@;
            toks.push((t, (pos, pos + len)));
            proof {
                assert forall|k: int| 0 <= k < toks@.len() implies {
                    &&& (#[trigger] toks@[k]).0 < self.engine.lexer.num_tokens()
                    &&& toks@[k].1.0 < toks@[k].1.1
                } by {
                    if k < old_toks.len() {
                        assert(toks@[k] == old_toks[k]);
                    }
                }
                assert forall|k: int| 0 <= k < toks@.len() implies #[trigger] self.matches_token(input@, toks@[k]) by {
                    if k < old_toks.len() {
                        assert(toks@[k] == old_toks[k]);
                    }
                }
                assert forall|k: int| 0 < k < toks@.len() implies (#[trigger] toks@[k]).1.0 == toks@[k - 1].1.1 by {
                    if k < old_toks.len() {
                        assert(toks@[k] == old_toks[k]);
                        assert(toks@[k - 1] == old_toks[k - 1]);
                    } else {
                        assert(toks@[k - 1] == old_toks[k - 1]);
                    }
                }
            }
            pos = pos + len;
        }
        Ok(toks)
    }

    fn at_token_end_exec(&self, st: &LR1State) -> (r: bool)
        requires
            self.wf(),
            self.engine.model_wf(st@),
        ensures
            r == self.at_token_end(st@),
    {
        match st.lex {
            None => true,
            Some(l) => match self.engine.lexer.token[l] {
                Some(t) => !self.engine.lexer.skippable[t],
                None => false,
            },
        }
    }
}

/// An input accepted as a whole is parsed to its end: the longest boundary is
/// the input's length, so nothing is left over.
pub proof fn lemma_accepted_input_leaves_no_tail(p: &LR1GrammarParser, input: Seq<u8>, end: int)
    requires
        p.wf(),
        p.is_boundary(input, input.len() as int),
        p.is_boundary(input, end),
        forall|q: int| end < q <= input.len() ==> !#[trigger] p.is_boundary(input, q),
    ensures
        end == input.len(),
{
    if end < input.len() {
        assert(!p.is_boundary(input, input.len() as int));
    }
}

/// The LR(1) parser under its short name.
pub type LR1Parser = LR1GrammarParser;

} // verus!
