use vstd::prelude::*;

use crate::dfa::{lemma_dead_stays_dead, lemma_run_in_bounds, lemma_run_in_concat, ByteDfa};

verus! {

/// The byte strings of a vocabulary.
pub open spec fn vocab_view(v: Seq<Vec<u8>>) -> Seq<Seq<u8>> {
    Seq::new(v.len(), |i: int| v[i]@)
}

/// How many bytes the strings of `v` hold together.
pub open spec fn total_len(v: Seq<Seq<u8>>) -> nat
    decreases v.len(),
{
    if v.len() == 0 {
        0
    } else {
        total_len(v.drop_last()) + v.last().len()
    }
}

proof fn lemma_total_len_take(v: Seq<Seq<u8>>, i: int)
    requires
        0 <= i < v.len(),
    ensures
        total_len(v.take(i + 1)) == total_len(v.take(i)) + v[i].len(),
        total_len(v.take(i + 1)) <= total_len(v),
    decreases v.len() - i,
{
    assert(v.take(i + 1).drop_last() =~= v.take(i));
    if i + 1 < v.len() {
        lemma_total_len_take(v, i + 1);
    } else {
        assert(v.take(i + 1) =~= v);
    }
}

/// A trie over the continuations of a vocabulary. Node 0 is the root; every
/// other node `k` hangs below `parent[k] < k` by the byte `byte[k]`, and
/// continuation `i` ends at node `end_node[i]`. Children are chained through
/// `first_child` and `next_sibling`, 0 ending a chain.
pub struct PrefixIndex {
    pub parent: Vec<usize>,
    pub byte: Vec<u8>,
    pub first_child: Vec<usize>,
    pub next_sibling: Vec<usize>,
    pub end_node: Vec<usize>,
    /// The bytes spelled from the root to each node.
    pub paths: Ghost<Seq<Seq<u8>>>,
}

impl PrefixIndex {
    pub open spec fn num_nodes(&self) -> nat {
        self.parent@.len()
    }

    pub open spec fn nodes_wf(&self) -> bool {
        let n = self.parent@.len();
        &&& n >= 1
        &&& n <= usize::MAX
        &&& self.byte@.len() == n
        &&& self.first_child@.len() == n
        &&& self.next_sibling@.len() == n
        &&& self.paths@.len() == n
        &&& self.paths@[0] == Seq::<u8>::empty()
        &&& forall|k: int|
            0 < k < n ==> (#[trigger] self.parent@[k]) < k && self.paths@[k] == self.paths@[self.parent@[k] as int].push(
                self.byte@[k],
            )
        &&& forall|k: int| 0 <= k < n ==> (#[trigger] self.first_child@[k]) < n
        &&& forall|k: int|
            0 <= k < n ==> (#[trigger] self.next_sibling@[k]) < k || self.next_sibling@[k] == 0
    }

    /// The index is a trie of `vocab`.
    pub open spec fn wf(&self, vocab: Seq<Seq<u8>>) -> bool {
        &&& self.nodes_wf()
        &&& self.end_node@.len() == vocab.len()
        &&& forall|i: int|
            0 <= i < vocab.len() ==> (#[trigger] self.end_node@[i]) < self.num_nodes() && self.paths@[self.end_node@[i] as int]
                == vocab[i]
    }

    /// The child of `k` reached by `b`, made when there is none.
    fn child(&mut self, k: usize, b: u8) -> (c: usize)
        requires
            old(self).nodes_wf(),
            k < old(self).num_nodes(),
            old(self).num_nodes() < usize::MAX,
        ensures
            final(self).nodes_wf(),
            c < final(self).num_nodes(),
            final(self).paths@[c as int] == old(self).paths@[k as int].push(b),
            old(self).num_nodes() <= final(self).num_nodes() <= old(self).num_nodes() + 1,
            forall|j: int| 0 <= j < old(self).num_nodes() ==> final(self).paths@[j] == old(self).paths@[j],
            final(self).end_node@ == old(self).end_node@,
    {
        let mut c = self.first_child[k];
        while c != 0
            invariant
                self.nodes_wf(),
                k < self.num_nodes(),
                c < self.num_nodes(),
            decreases c,
        {
            if self.parent[c] == k && self.byte[c] == b {
                return c;
            }
            c = self.next_sibling[c];
        }
        let new = self.parent.len();
        let ghost p = self.paths@[k as int].push(b);
        self.next_sibling.push(self.first_child[k]);
        self.first_child.set(k, new);
        self.first_child.push(0);
        self.parent.push(k);
        self.byte.push(b);
        self.paths = Ghost(self.paths@.push(p));
        assert(self.paths@[new as int] == self.paths@[self.parent@[new as int] as int].push(self.byte@[new as int]));
        new
    }

    /// Builds the trie of `vocab`.
    pub fn new(vocab: &Vec<Vec<u8>>) -> (r: Option<PrefixIndex>)
        ensures
            r matches Some(ix) ==> ix.wf(vocab_view(vocab@)),
            total_len(vocab_view(vocab@)) + 1 < usize::MAX ==> r is Some,
    {
        let ghost vv = vocab_view(vocab@);
        let mut ix = PrefixIndex {
            parent: Vec::new(),
            byte: Vec::new(),
            first_child: Vec::new(),
            next_sibling: Vec::new(),
            end_node: Vec::new(),
            paths: Ghost(Seq::empty()),
        };
        ix.parent.push(0);
        ix.byte.push(0);
        ix.first_child.push(0);
        ix.next_sibling.push(0);
        ix.paths = Ghost(Seq::<Seq<u8>>::empty().push(Seq::<u8>::empty()));
        let mut i: usize = 0;
        while i < vocab.len()
            invariant
                ix.nodes_wf(),
                i <= vocab@.len(),
                ix.end_node@.len() == i,
                vv == vocab_view(vocab@),
                total_len(vv) + 1 < usize::MAX ==> ix.num_nodes() <= 1 + total_len(vv.take(i as int)),
                forall|j: int|
                    0 <= j < i ==> (#[trigger] ix.end_node@[j]) < ix.num_nodes() && ix.paths@[ix.end_node@[j] as int]
                        == vocab@[j]@,
            decreases vocab@.len() - i,
        {
            proof {
                lemma_total_len_take(vv, i as int);
                assert(vv[i as int] == vocab@[i as int]@);
            }
            let w = &vocab[i];
            let mut cur: usize = 0;
            let mut j: usize = 0;
            while j < w.len()
                invariant
                    ix.nodes_wf(),
                    *w == vocab@[i as int],
                    i < vocab@.len(),
                    ix.end_node@.len() == i,
                    vv == vocab_view(vocab@),
                    total_len(vv.take(i + 1)) == total_len(vv.take(i as int)) + w@.len(),
                    total_len(vv.take(i + 1)) <= total_len(vv),
                    total_len(vv) + 1 < usize::MAX ==> ix.num_nodes() <= 1 + total_len(vv.take(i as int)) + j,
                    j <= w@.len(),
                    cur < ix.num_nodes(),
                    ix.paths@[cur as int] == w@.take(j as int),
                    forall|jj: int|
                        0 <= jj < i ==> (#[trigger] ix.end_node@[jj]) < ix.num_nodes() && ix.paths@[ix.end_node@[jj] as int]
                            == vocab@[jj]@,
                decreases w@.len() - j,
            {
                if ix.parent.len() == usize::MAX {
                    return None;
                }
                let ghost before = ix.paths@;
                let ghost n_before = ix.num_nodes();
                assert(forall|jj: int|
                    0 <= jj < i ==> (#[trigger] ix.end_node@[jj]) < n_before && before[ix.end_node@[jj] as int]
                        == vocab@[jj]@);
                cur = ix.child(cur, w[j]);
                assert(w@.take(j + 1) =~= w@.take(j as int).push(w@[j as int]));
                assert forall|jj: int|
                    0 <= jj < i implies (#[trigger] ix.end_node@[jj]) < ix.num_nodes() && ix.paths@[ix.end_node@[jj] as int]
                        == vocab@[jj]@ by {
                    assert(ix.paths@[ix.end_node@[jj] as int] == before[ix.end_node@[jj] as int]);
                }
                j = j + 1;
            }
            assert(w@.take(w@.len() as int) =~= w@);
            ix.end_node.push(cur);
            proof {
                lemma_total_len_take(vv, i as int);
            }
            i = i + 1;
        }
        assert(ix.end_node@.len() == vocab_view(vocab@).len());
        Some(ix)
    }

    /// The indices of the continuations that are viable at `q`: those after
    /// which acceptance is still within reach. Nodes are visited in order, so a
    /// parent is done before its children, and the automaton is not run below a
    /// node from which acceptance is out of reach.
    pub fn viable(&self, vocab: Ghost<Seq<Seq<u8>>>, dfa: &ByteDfa, q: usize) -> (r: Vec<usize>)
        requires
            self.wf(vocab@),
            dfa.wf(),
            q < dfa.num_states(),
        ensures
            forall|k: int| 0 <= k < r@.len() ==> (#[trigger] r@[k]) < vocab@.len(),
            forall|j: int, k: int| 0 <= j < k < r@.len() ==> r@[j] < r@[k],
            forall|i: nat|
                i < vocab@.len() ==> (r@.contains(i as usize) <==> dfa.can_accept(
                    dfa.run_spec(q as nat, vocab@[i as int]),
                )),
    {
        let n = self.parent.len();
        let mut state: Vec<usize> = Vec::new();
        let mut alive: Vec<bool> = Vec::new();
        state.push(q);
        alive.push(dfa.is_live(q));
        let mut k: usize = 1;
        while k < n
            invariant
                self.wf(vocab@),
                dfa.wf(),
                q < dfa.num_states(),
                n == self.num_nodes(),
                1 <= k <= n,
                state@.len() == k,
                alive@.len() == k,
                forall|m: int| 0 <= m < k ==> (#[trigger] state@[m]) < dfa.num_states(),
                forall|m: int|
                    0 <= m < k ==> #[trigger] alive@[m] == dfa.can_accept(dfa.run_spec(q as nat, self.paths@[m])),
                forall|m: int|
                    0 <= m < k && alive@[m] ==> #[trigger] state@[m] == dfa.run_spec(q as nat, self.paths@[m]),
            decreases n - k,
        {
            let p = self.parent[k];
            let b = self.byte[k];
            let ghost pp = self.paths@[p as int];
            proof {
                lemma_run_in_bounds(dfa.next@, q as nat, pp);
                lemma_run_in_concat(dfa.next@, q as nat, pp, seq![b]);
                let s = dfa.run_spec(q as nat, pp);
                assert(seq![b][0] == b);
                assert(seq![b].drop_first() =~= Seq::<u8>::empty());
                assert(crate::dfa::run_in(dfa.next@, crate::dfa::step_in(dfa.next@, s, b), Seq::<u8>::empty())
                    == crate::dfa::step_in(dfa.next@, s, b));
                assert(pp + seq![b] =~= pp.push(b));
                if !alive@[p as int] {
                    lemma_dead_stays_dead(dfa, s, seq![b]);
                }
            }
            if alive[p] {
                let s = dfa.next[state[p]][b as usize];
                state.push(s);
                alive.push(dfa.is_live(s));
            } else {
                state.push(0);
                alive.push(false);
            }
            k = k + 1;
        }
        let mut r: Vec<usize> = Vec::new();
        let mut i: usize = 0;
        while i < self.end_node.len()
            invariant
                self.wf(vocab@),
                alive@.len() == n,
                n == self.num_nodes(),
                i <= vocab@.len(),
                forall|m: int|
                    0 <= m < n ==> #[trigger] alive@[m] == dfa.can_accept(dfa.run_spec(q as nat, self.paths@[m])),
                forall|m: int| 0 <= m < r@.len() ==> (#[trigger] r@[m]) < i,
                forall|j: int, m: int| 0 <= j < m < r@.len() ==> r@[j] < r@[m],
                forall|j: nat|
                    j < i ==> (r@.contains(j as usize) <==> dfa.can_accept(
                        dfa.run_spec(q as nat, vocab@[j as int]),
                    )),
            decreases vocab@.len() - i,
        {
            let ghost r0 = r@;
            if alive[self.end_node[i]] {
                r.push(i);
                proof {
                    assert forall|j: nat| j <= i implies (r@.contains(j as usize) <==> dfa.can_accept(
                        dfa.run_spec(q as nat, vocab@[j as int]),
                    )) by {
                        if j < i {
                            if r0.contains(j as usize) {
                                let m = choose|m: int| 0 <= m < r0.len() && r0[m] == j as usize;
                                assert(r@[m] == j as usize);
                            }
                            if r@.contains(j as usize) {
                                let m = choose|m: int| 0 <= m < r@.len() && r@[m] == j as usize;
                                assert(m < r0.len());
                                assert(r0[m] == j as usize);
                            }
                        } else {
                            assert(r@[r0.len() as int] == i);
                        }
                    }
                }
            } else {
                proof {
                    assert(!r@.contains(i));
                }
            }
            i = i + 1;
        }
        r
    }
}

} // verus!
