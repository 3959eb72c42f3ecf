use vstd::prelude::*;

verus! {

/// A deterministic automaton over bytes, held as a dense transition table.
///
/// `next[q][b]` is the state reached from `q` on byte `b`, `accepting[q]` tells
/// whether the input read so far is accepted in `q`, and `live[q]` whether some
/// continuation from `q` reaches an accepting state.
pub struct ByteDfa {
    pub start: usize,
    pub next: Vec<Vec<usize>>,
    pub accepting: Vec<bool>,
    pub live: Vec<bool>,
}

/// Transition tables: every row has 256 entries, each naming a state of the table.
pub open spec fn table_wf(next: Seq<Vec<usize>>) -> bool {
    &&& forall|q: int| 0 <= q < next.len() ==> (#[trigger] next[q]@).len() == 256
    &&& forall|q: int, b: int|
        0 <= q < next.len() && 0 <= b < 256 ==> (#[trigger] next[q]@[b]) < next.len()
}

pub open spec fn step_in(next: Seq<Vec<usize>>, q: nat, b: u8) -> nat {
    next[q as int]@[b as int] as nat
}

/// The state reached from `q` after reading `w`.
pub open spec fn run_in(next: Seq<Vec<usize>>, q: nat, w: Seq<u8>) -> nat
    decreases w.len(),
{
    if w.len() == 0 {
        q
    } else {
        run_in(next, step_in(next, q, w[0]), w.drop_first())
    }
}

/// Some input read from `q` ends in a state marked in `acc`.
pub open spec fn reaches(next: Seq<Vec<usize>>, acc: Seq<bool>, q: nat) -> bool {
    exists|w: Seq<u8>| #[trigger] acc[run_in(next, q, w) as int]
}

pub proof fn lemma_run_in_bounds(next: Seq<Vec<usize>>, q: nat, w: Seq<u8>)
    requires
        table_wf(next),
        q < next.len(),
    ensures
        run_in(next, q, w) < next.len(),
    decreases w.len(),
{
    if w.len() > 0 {
        let b = w[0];
        assert(next[q as int]@[b as int] < next.len());
        lemma_run_in_bounds(next, step_in(next, q, b), w.drop_first());
    }
}

pub proof fn lemma_run_in_concat(next: Seq<Vec<usize>>, q: nat, u: Seq<u8>, v: Seq<u8>)
    ensures
        run_in(next, q, u + v) == run_in(next, run_in(next, q, u), v),
    decreases u.len(),
{
    if u.len() == 0 {
        assert(u + v =~= v);
    } else {
        assert((u + v)[0] == u[0]);
        assert((u + v).drop_first() =~= u.drop_first() + v);
        lemma_run_in_concat(next, step_in(next, q, u[0]), u.drop_first(), v);
    }
}

proof fn lemma_reaches_step(next: Seq<Vec<usize>>, acc: Seq<bool>, q: nat, b: u8)
    requires
        reaches(next, acc, step_in(next, q, b)),
    ensures
        reaches(next, acc, q),
{
    let w = choose|w: Seq<u8>| #[trigger] acc[run_in(next, step_in(next, q, b), w) as int];
    let bw = seq![b] + w;
    assert(bw[0] == b);
    assert(bw.drop_first() =~= w);
    assert(acc[run_in(next, q, bw) as int]);
}

/// A marking closed under predecessors of marked states, and covering `acc`,
/// covers every state from which `acc` can be reached.
proof fn lemma_closed_covers(next: Seq<Vec<usize>>, acc: Seq<bool>, live: Seq<bool>, q: nat, w: Seq<u8>)
    requires
        table_wf(next),
        acc.len() == next.len(),
        live.len() == next.len(),
        q < next.len(),
        forall|p: int| 0 <= p < next.len() && !live[p] ==> !acc[p],
        forall|p: int, b: int|
            0 <= p < next.len() && 0 <= b < 256 && !live[p] ==> !live[#[trigger] next[p]@[b] as int],
        acc[run_in(next, q, w) as int],
    ensures
        live[q as int],
    decreases w.len(),
{
    if w.len() > 0 {
        let b = w[0];
        assert(next[q as int]@[b as int] < next.len());
        lemma_closed_covers(next, acc, live, step_in(next, q, b), w.drop_first());
        assert(live[next[q as int]@[b as int] as int]);
    }
}

pub open spec fn count_true(s: Seq<bool>) -> nat
    decreases s.len(),
{
    if s.len() == 0 {
        0
    } else {
        count_true(s.drop_last()) + if s.last() { 1nat } else { 0nat }
    }
}

proof fn lemma_count_true_bound(s: Seq<bool>)
    ensures
        count_true(s) <= s.len(),
    decreases s.len(),
{
    if s.len() > 0 {
        lemma_count_true_bound(s.drop_last());
    }
}

proof fn lemma_count_true_set(s: Seq<bool>, i: int)
    requires
        0 <= i < s.len(),
        !s[i],
    ensures
        count_true(s.update(i, true)) == count_true(s) + 1,
    decreases s.len(),
{
    let t = s.update(i, true);
    if i == s.len() - 1 {
        assert(t.drop_last() =~= s.drop_last());
    } else {
        assert(t.drop_last() =~= s.drop_last().update(i, true));
        lemma_count_true_set(s.drop_last(), i);
    }
}

fn has_live_successor(next: &Vec<Vec<usize>>, live: &Vec<bool>, q: usize) -> (r: bool)
    requires
        table_wf(next@),
        live@.len() == next@.len(),
        q < next@.len(),
    ensures
        r == exists|b: int| 0 <= b < 256 && live@[#[trigger] next@[q as int]@[b] as int],
{
    let row = &next[q];
    let mut b: usize = 0;
    while b < 256
        invariant
            table_wf(next@),
            live@.len() == next@.len(),
            q < next@.len(),
            *row == next@[q as int],
            b <= 256,
            forall|c: int| 0 <= c < b ==> !live@[#[trigger] next@[q as int]@[c] as int],
        decreases 256 - b,
    {
        if live[row[b]] {
            return true;
        }
        b = b + 1;
    }
    false
}

/// Marks the states from which a state marked in `acc` can be reached: starting
/// from `acc`, a state is marked once one of its successors is, until a sweep
/// marks nothing new. Sweeps run from the highest state down, so that marks
/// travel back along transitions to higher states within one sweep.
pub fn compute_live(next: &Vec<Vec<usize>>, acc: &Vec<bool>) -> (live: Vec<bool>)
    requires
        table_wf(next@),
        acc@.len() == next@.len(),
    ensures
        live@.len() == next@.len(),
        next@.len() <= usize::MAX,
        forall|q: int| 0 <= q < next@.len() ==> live@[q] == reaches(next@, acc@, q as nat),
{
    let n = next.len();
    let mut live: Vec<bool> = Vec::new();
    let mut i: usize = 0;
    while i < n
        invariant
            i <= n,
            n == next@.len(),
            acc@.len() == n,
            live@.len() == i,
            forall|q: int| 0 <= q < i ==> live@[q] == acc@[q],
            forall|q: int| 0 <= q < i && live@[q] ==> reaches(next@, acc@, q as nat),
        decreases n - i,
    {
        proof {
            assert(run_in(next@, i as nat, Seq::<u8>::empty()) == i as nat);
        }
        live.push(acc[i]);
        i = i + 1;
    }
    let ghost mut count: nat = count_true(live@);
    proof {
        lemma_count_true_bound(live@);
    }
    let mut changed = true;
    while changed
        invariant
            n == next@.len(),
            acc@.len() == n,
            live@.len() == n,
            count == count_true(live@),
            count <= n,
            table_wf(next@),
            forall|q: int| 0 <= q < n && acc@[q] ==> live@[q],
            forall|q: int| 0 <= q < n && live@[q] ==> reaches(next@, acc@, q as nat),
            !changed ==> forall|p: int, b: int|
                0 <= p < n && 0 <= b < 256 && !live@[p] ==> !live@[#[trigger] next@[p]@[b] as int],
        decreases 2 * (n - count) + if changed { 1int } else { 0int },
    {
        changed = false;
        let ghost count0 = count;
        let mut q: usize = n;
        while q > 0
            invariant
                n == next@.len(),
                acc@.len() == n,
                live@.len() == n,
                q <= n,
                count == count_true(live@),
                count <= n,
                count >= count0,
                changed ==> count > count0,
                table_wf(next@),
                forall|p: int| 0 <= p < n && acc@[p] ==> live@[p],
                forall|p: int| 0 <= p < n && live@[p] ==> reaches(next@, acc@, p as nat),
                !changed ==> forall|p: int, b: int|
                    q <= p < n && 0 <= b < 256 && !live@[p] ==> !live@[#[trigger] next@[p]@[b] as int],
            decreases q,
        {
            q = q - 1;
            if !live[q] && has_live_successor(next, &live, q) {
                proof {
                    let b = choose|b: int| 0 <= b < 256 && live@[#[trigger] next@[q as int]@[b] as int];
                    let t = next@[q as int]@[b];
                    assert(reaches(next@, acc@, t as nat));
                    assert(step_in(next@, q as nat, b as u8) == t as nat);
                    lemma_reaches_step(next@, acc@, q as nat, b as u8);
                    lemma_count_true_set(live@, q as int);
                    count = count + 1;
                    lemma_count_true_bound(live@.update(q as int, true));
                }
                live.set(q, true);
                changed = true;
            }
        }
    }
    proof {
        assert forall|q: int| 0 <= q < n implies live@[q] == reaches(next@, acc@, q as nat) by {
            if reaches(next@, acc@, q as nat) {
                let w = choose|w: Seq<u8>| #[trigger] acc@[run_in(next@, q as nat, w) as int];
                lemma_closed_covers(next@, acc@, live@, q as nat, w);
            }
        }
    }
    live
}

impl ByteDfa {
    pub open spec fn num_states(&self) -> nat {
        self.next@.len()
    }

    pub open spec fn wf(&self) -> bool {
        &&& table_wf(self.next@)
        &&& self.start < self.next@.len()
        &&& self.next@.len() <= usize::MAX
        &&& self.accepting@.len() == self.next@.len()
        &&& self.live@.len() == self.next@.len()
        &&& forall|q: int|
            0 <= q < self.next@.len() ==> #[trigger] self.live@[q] == self.can_accept(q as nat)
    }

    /// The state reached from `q` after reading `w`.
    pub open spec fn run_spec(&self, q: nat, w: Seq<u8>) -> nat {
        run_in(self.next@, q, w)
    }

    pub open spec fn is_accepting(&self, q: nat) -> bool {
        self.accepting@[q as int]
    }

    /// Some input read from `q` leads to acceptance.
    pub open spec fn can_accept(&self, q: nat) -> bool {
        reaches(self.next@, self.accepting@, q)
    }

    /// `w` is accepted when read from the start state.
    pub open spec fn accepts(&self, w: Seq<u8>) -> bool {
        self.is_accepting(self.run_spec(self.start as nat, w))
    }

    /// Builds the automaton from its start state, transitions and accepting
    /// states, working out which states are live.
    pub fn from_parts(start: usize, next: Vec<Vec<usize>>, accepting: Vec<bool>) -> (r: ByteDfa)
        requires
            table_wf(next@),
            start < next@.len(),
            accepting@.len() == next@.len(),
        ensures
            r.wf(),
            r.start == start,
            r.next@ == next@,
            r.accepting@ == accepting@,
    {
        let live = compute_live(&next, &accepting);
        ByteDfa { start, next, accepting, live }
    }

    pub fn len(&self) -> (r: usize)
        ensures
            r == self.num_states(),
    {
        self.next.len()
    }

    pub fn is_live(&self, q: usize) -> (r: bool)
        requires
            self.wf(),
            q < self.num_states(),
        ensures
            r == self.can_accept(q as nat),
    {
        self.live[q]
    }

    pub fn is_match(&self, q: usize) -> (r: bool)
        requires
            self.wf(),
            q < self.num_states(),
        ensures
            r == self.is_accepting(q as nat),
    {
        self.accepting[q]
    }

    /// The state reached from `q` after reading `w`.
    pub fn run(&self, q: usize, w: &[u8]) -> (r: usize)
        requires
            self.wf(),
            q < self.num_states(),
        ensures
            r == self.run_spec(q as nat, w@),
            r < self.num_states(),
    {
        let mut cur = q;
        let mut i: usize = 0;
        proof {
            assert(w@.subrange(0, w@.len() as int) =~= w@);
        }
        while i < w.len()
            invariant
                self.wf(),
                i <= w@.len(),
                cur < self.num_states(),
                self.run_spec(cur as nat, w@.subrange(i as int, w@.len() as int)) == self.run_spec(
                    q as nat,
                    w@,
                ),
            decreases w@.len() - i,
        {
            let ghost rest = w@.subrange(i as int, w@.len() as int);
            proof {
                assert(rest[0] == w@[i as int]);
                assert(rest.drop_first() =~= w@.subrange(i as int + 1, w@.len() as int));
            }
            cur = self.next[cur][w[i] as usize];
            i = i + 1;
        }
        proof {
            assert(w@.subrange(w@.len() as int, w@.len() as int) =~= Seq::<u8>::empty());
        }
        cur
    }
}

/// Once acceptance is out of reach, it stays out of reach.
pub proof fn lemma_dead_stays_dead(d: &ByteDfa, q: nat, w: Seq<u8>)
    requires
        d.wf(),
        q < d.num_states(),
        !d.can_accept(q),
    ensures
        !d.can_accept(d.run_spec(q, w)),
{
    lemma_run_in_bounds(d.next@, q, w);
    if d.can_accept(d.run_spec(q, w)) {
        let v = choose|v: Seq<u8>| #[trigger] d.accepting@[run_in(d.next@, d.run_spec(q, w), v) as int];
        lemma_run_in_concat(d.next@, q, w, v);
        assert(d.accepting@[run_in(d.next@, q, w + v) as int]);
    }
}

} // verus!
