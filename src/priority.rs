use vstd::prelude::*;
use vstd::std_specs::hash::obeys_key_model;
use std::collections::BTreeMap;
use std::rc::Rc;
use crate::ledger::{Ledger, share};
use crate::state::{
    PriorityState, step, values, back_chain, reachable, reachable_set, goal_reachable, is_solution,
    lemma_reachable_refl, lemma_reachable_step,
};

verus! {

/// The order of a frontier entry: its priority, then the ledger index of
/// its parent, then its position among that parent's neighbors. The last
/// two together are the order in which entries were pushed.
pub type Rank = (usize, usize, usize);

/// `a` comes no later than `b`: tuples compare lexicographically.
pub open spec fn rank_le(a: Rank, b: Rank) -> bool {
    ||| a.0 < b.0
    ||| (a.0 == b.0 && a.1 < b.1)
    ||| (a.0 == b.0 && a.1 == b.1 && a.2 <= b.2)
}

/// Relies on std's `BTreeMap::pop_first`: it removes and returns the entry
/// with the least key (tuples order lexicographically), or `None` when the
/// map is empty.
#[verifier::external_body]
fn pop_least<V>(m: &mut BTreeMap<Rank, V>) -> (r: Option<(Rank, V)>)
    ensures
        match r {
            Some(e) => {
                &&& old(m)@.contains_key(e.0)
                &&& old(m)@[e.0] == e.1
                &&& final(m)@ == old(m)@.remove(e.0)
                &&& forall|k: Rank| #[trigger] old(m)@.contains_key(k) ==> rank_le(e.0, k)
            },
            None => old(m)@.dom().is_empty() && final(m)@ == old(m)@,
        },
{
    m.pop_first()
}

/// The least rank among the keys of `m`.
pub open spec fn least_rank<V>(m: Map<Rank, V>) -> Rank {
    choose|k: Rank| #[trigger] m.contains_key(k) && forall|k2: Rank| #[trigger]
        m.contains_key(k2) ==> rank_le(k, k2)
}

/// The rank that is no later than every key of `m` is its least rank.
proof fn lemma_least_rank<V>(m: Map<Rank, V>, k: Rank)
    requires
        m.contains_key(k),
        forall|k2: Rank| #[trigger] m.contains_key(k2) ==> rank_le(k, k2),
    ensures
        least_rank(m) == k,
{
    let l = least_rank(m);
    assert(rank_le(l, k) && rank_le(k, l));
}

/// What a best-first search holds between two steps, over plain values:
/// the recorded states and their parents, the frontier by rank, and, once
/// it is done, the index of the goal found, if any.
pub struct PrioritySnapshot<T> {
    pub seen: Seq<T>,
    pub parents: Seq<Option<usize>>,
    pub queue: Map<Rank, T>,
    pub found: Option<usize>,
    pub done: bool,
}

/// Frontier entries for the states `ns`, all discovered from entry `parent`,
/// each under the rank (its priority, `parent`, its position in `ns`).
pub open spec fn ranked_entries<T: PriorityState>(ns: Seq<T>, parent: usize) -> Map<Rank, T> {
    Map::new(
        |k: Rank| k.1 == parent && k.2 < ns.len() && k.0 == ns[k.2 as int].spec_priority(),
        |k: Rank| ns[k.2 as int],
    )
}

/// The frontier behind shared handles, as plain values.
pub open spec fn plain_ranked<T>(m: Map<Rank, Rc<T>>) -> Map<Rank, T> {
    m.map_values(|v: Rc<T>| *v)
}

/// The search right after construction: the start is recorded as the root
/// and its neighbors wait in the frontier.
pub open spec fn best_first_init<T: PriorityState>(start: T) -> PrioritySnapshot<T> {
    PrioritySnapshot {
        seen: seq![start],
        parents: seq![None],
        queue: ranked_entries(start.spec_neighbors(), 0),
        found: None,
        done: false,
    }
}

/// One step of the search: take the entry of least rank; drop it if its
/// state is recorded; else record it, stop if it is a goal, and push its
/// neighbors.
pub open spec fn best_first_step<T: PriorityState>(st: PrioritySnapshot<T>) -> PrioritySnapshot<T> {
    if st.done {
        st
    } else if st.queue.dom().is_empty() {
        PrioritySnapshot {
            seen: st.seen,
            parents: st.parents,
            queue: st.queue,
            found: None,
            done: true,
        }
    } else {
        let k = least_rank(st.queue);
        let n = st.queue[k];
        let rest = st.queue.remove(k);
        if st.seen.contains(n) {
            PrioritySnapshot {
                seen: st.seen,
                parents: st.parents,
                queue: rest,
                found: None,
                done: false,
            }
        } else {
            let i = st.seen.len() as usize;
            let seen = st.seen.push(n);
            let parents = st.parents.push(Some(k.1));
            if n.spec_is_goal() {
                PrioritySnapshot { seen, parents, queue: rest, found: Some(i), done: true }
            } else {
                PrioritySnapshot {
                    seen,
                    parents,
                    queue: rest.union_prefer_right(ranked_entries(n.spec_neighbors(), i)),
                    found: None,
                    done: false,
                }
            }
        }
    }
}

/// The search after `k` steps.
pub open spec fn best_first_iterate<T: PriorityState>(
    st: PrioritySnapshot<T>,
    k: nat,
) -> PrioritySnapshot<T>
    decreases k,
{
    if k == 0 {
        st
    } else {
        best_first_step(best_first_iterate(st, (k - 1) as nat))
    }
}

/// What a best-first search from `start` returns once it is done: the path
/// to the goal found, or `None`.
pub open spec fn best_first_outcome<T: PriorityState>(start: T) -> Option<Seq<T>> {
    let st = best_first_iterate(
        best_first_init(start),
        choose|k: nat| best_first_iterate(best_first_init(start), k).done,
    );
    match st.found {
        Some(i) => Some(back_chain(st.seen, st.parents, i as int).reverse()),
        None => None,
    }
}

/// Once the search is done, further steps change nothing.
proof fn lemma_best_first_done_stays<T: PriorityState>(st: PrioritySnapshot<T>, k: nat, j: nat)
    requires
        best_first_iterate(st, k).done,
        k <= j,
    ensures
        best_first_iterate(st, j) == best_first_iterate(st, k),
    decreases j - k,
{
    if j > k {
        lemma_best_first_done_stays(st, k, (j - 1) as nat);
    }
}

/// The outcome is read from any step count at which the search is done.
proof fn lemma_best_first_outcome_at<T: PriorityState>(start: T, k: nat)
    requires
        best_first_iterate(best_first_init(start), k).done,
    ensures
        best_first_outcome(start) == (match best_first_iterate(best_first_init(start), k).found {
            Some(i) => Some(
                back_chain(
                    best_first_iterate(best_first_init(start), k).seen,
                    best_first_iterate(best_first_init(start), k).parents,
                    i as int,
                ).reverse(),
            ),
            None => None,
        }),
{
    let init = best_first_init(start);
    let k2 = choose|k: nat| best_first_iterate(init, k).done;
    if k <= k2 {
        lemma_best_first_done_stays(init, k, k2);
    } else {
        lemma_best_first_done_stays(init, k2, k);
    }
}

/// Two best-first searches from equal start states, with the same
/// priorities, return the same result: the outcome depends on the start
/// state alone, ties included.
pub proof fn lemma_best_first_deterministic<T: PriorityState>(a: T, b: T)
    requires
        a == b,
    ensures
        best_first_outcome(a) == best_first_outcome(b),
{
}

/// Greedy best-first search from one start state.
///
/// The frontier is ordered by the candidate's own priority, smallest first;
/// among equal priorities the entry pushed first leaves first. Duplicates are
/// dropped when they are popped, not when pushed.
pub struct PriorityTree<T: PriorityState> {
    queue: BTreeMap<Rank, Rc<T>>,
    ledger: Ledger<T>,
    /// The number of steps taken since construction.
    steps: Ghost<nat>,
}

/// Adds each of `ns`, discovered from the ledger entry `parent`, under the
/// rank (its priority, `parent`, its position in `ns`).
fn push_ranked<T: PriorityState>(queue: &mut BTreeMap<Rank, Rc<T>>, ns: &Vec<Rc<T>>, parent: usize)
    requires
        forall|k: Rank| #[trigger] old(queue)@.contains_key(k) ==> k.1 != parent,
    ensures
        forall|k: Rank|
            #[trigger] final(queue)@.contains_key(k) <==> (old(queue)@.contains_key(k) || (k.1
                == parent && k.2 < ns@.len() && k.0 == ns@[k.2 as int].spec_priority())),
        forall|k: Rank|
            #[trigger] old(queue)@.contains_key(k) ==> final(queue)@[k] == old(queue)@[k],
        forall|j: int|
            0 <= j < ns@.len() ==> #[trigger] final(queue)@[(
                ns@[j].spec_priority(),
                parent,
                j as usize,
            )] == ns@[j],
{
    let ghost q0 = queue@;
    let mut k: usize = 0;
    while k < ns.len()
        invariant
            k <= ns@.len(),
            forall|x: Rank| #[trigger] q0.contains_key(x) ==> x.1 != parent,
            forall|x: Rank|
                #[trigger] queue@.contains_key(x) <==> (q0.contains_key(x) || (x.1 == parent && x.2
                    < k && x.0 == ns@[x.2 as int].spec_priority())),
            forall|x: Rank| #[trigger] q0.contains_key(x) ==> queue@[x] == q0[x],
            forall|j: int|
                0 <= j < k ==> #[trigger] queue@[(ns@[j].spec_priority(), parent, j as usize)]
                    == ns@[j],
        decreases ns@.len() - k,
    {
        let p = ns[k].priority();
        queue.insert((p, parent, k), share(&ns[k]));
        k = k + 1;
    }
}

impl<T: PriorityState> PriorityTree<T> {
    /// The state the search started from.
    pub closed spec fn start(&self) -> T {
        self.ledger.seq()[0]
    }

    /// The search as plain values.
    pub closed spec fn model(&self) -> PrioritySnapshot<T> {
        PrioritySnapshot {
            seen: self.ledger.seq(),
            parents: self.ledger.parents@,
            queue: plain_ranked(self.queue@),
            found: None,
            done: false,
        }
    }

    /// `n` waits in the frontier.
    pub closed spec fn waiting(&self, n: T) -> bool {
        exists|k: Rank| #[trigger] self.queue@.contains_key(k) && self.queue@[k] == n
    }

    /// The search is consistent: every recorded state is reachable from the
    /// start, none but the start is a goal, every frontier entry is a
    /// neighbor of its recorded parent ranked by its own priority, and every
    /// neighbor of a recorded state is recorded or waits in the frontier.
    pub closed spec fn wf(&self) -> bool {
        let s = self.ledger.seq();
        &&& self.ledger.wf()
        &&& self.model() == best_first_iterate(best_first_init(s[0]), self.steps@)
        &&& forall|k: Rank|
            #[trigger] self.queue@.contains_key(k) ==> {
                &&& k.1 < self.ledger.len()
                &&& step(s[k.1 as int], *self.queue@[k])
                &&& k.0 == self.queue@[k].spec_priority()
            }
        &&& forall|i: int|
            #![trigger s[i]]
            0 <= i < s.len() ==> reachable(s[0], s[i]) && (i > 0 ==> !s[i].spec_is_goal())
        &&& forall|i: int, n: T|
            #![trigger step(s[i], n)]
            0 <= i < s.len() && step(s[i], n) ==> s.contains(n) || self.waiting(n)
    }

    /// A search from `start`: `start` is recorded as the root and its
    /// neighbors wait in the frontier. `start` itself is never goal-checked:
    /// a start that is a goal is not reported, and a walk that leads back to
    /// it is dropped as already recorded. States must compare and hash
    /// consistently.
    pub fn new(start: Rc<T>) -> (r: PriorityTree<T>)
        requires
            obeys_key_model::<T>(),
        ensures
            r.wf(),
            r.start() == *start,
            r.model() == best_first_init(*start),
    {
        let ledger = Ledger::new(&start);
        let mut queue: BTreeMap<Rank, Rc<T>> = BTreeMap::new();
        let ns = start.neighbors();
        push_ranked(&mut queue, &ns, 0);
        let r = PriorityTree { queue, ledger, steps: Ghost(0) };
        proof {
            let s = r.ledger.seq();
            assert(r.ledger.parents@ =~= seq![None]);
            let ne = ranked_entries(start.spec_neighbors(), 0);
            assert forall|k: Rank| #[trigger] plain_ranked(r.queue@).contains_key(k) == ne.contains_key(k)
                by {
                if k.1 == 0 && k.2 < ns@.len() {
                    assert(values(ns@)[k.2 as int] == *ns@[k.2 as int]);
                }
            }
            assert forall|k: Rank| #[trigger] ne.contains_key(k) implies plain_ranked(r.queue@)[k] == ne[k]
                by {
                let j = k.2 as int;
                assert(r.queue@[(ns@[j].spec_priority(), 0usize, j as usize)] == ns@[j]);
                assert(values(ns@)[j] == *ns@[j]);
            }
            assert(plain_ranked(r.queue@) =~= ne);
            assert(r.model() == best_first_init(s[0]));
            lemma_reachable_refl(s[0]);
            assert forall|k: Rank| #[trigger] r.queue@.contains_key(k) implies {
                &&& k.1 < r.ledger.len()
                &&& step(s[k.1 as int], *r.queue@[k])
                &&& k.0 == r.queue@[k].spec_priority()
            } by {
                let j = k.2 as int;
                assert(r.queue@[(ns@[j].spec_priority(), 0usize, j as usize)] == ns@[j]);
                assert(values(ns@)[j] == *ns@[j]);
            }
            assert forall|i: int, n: T| #![trigger step(s[i], n)] 0 <= i < s.len() && step(s[i], n)
                implies s.contains(n) || r.waiting(n) by {
                let j = choose|j: int| 0 <= j < ns@.len() && values(ns@)[j] == n;
                let k = (ns@[j].spec_priority(), 0usize, j as usize);
                assert(r.queue@[k] == ns@[j]);
                assert(r.queue@.contains_key(k));
            }
        }
        r
    }

    /// Runs the search to the end. Returns a path from the start to the
    /// first goal popped, or `None` once the frontier is exhausted.
    #[verifier::rlimit(100)]
    #[verifier::spinoff_prover]
    pub fn run(&mut self) -> (r: Option<Vec<Rc<T>>>)
        requires
            old(self).wf(),
            reachable_set(old(self).start()).finite(),
        ensures
            r is Some <==> goal_reachable(old(self).start()),
            match r {
                Some(p) => {
                    &&& is_solution(old(self).start(), values(p@))
                    &&& p@.len() >= 2
                    &&& best_first_outcome(old(self).start()) == Some(values(p@))
                },
                None => best_first_outcome(old(self).start()) is None,
            },
    {
        let ghost start = old(self).start();
        let ghost reach = reachable_set(start);
        proof {
            let s = self.ledger.seq();
            assert forall|i: int| 0 <= i < s.len() implies reach.contains(#[trigger] s[i]) by {
                assert(reachable(s[0], s[i]));
            }
            crate::search::lemma_ledger_within(s, reach);
        }
        loop
            invariant
                self.wf(),
                self.start() == start,
                old(self).start() == start,
                reach == reachable_set(start),
                reach.finite(),
                self.ledger.len() <= reach.len(),
            decreases reach.len() - self.ledger.len(), self.queue@.dom().len(),
        {
            let ghost s0 = self.ledger.seq();
            let ghost q0 = self.queue@;
            let ghost m0 = self.model();
            let ghost k0 = self.steps@;
            match pop_least(&mut self.queue) {
                None => {
                    proof {
                        assert forall|i: int, n: T| #![trigger step(s0[i], n)] 0 <= i < s0.len()
                            && step(s0[i], n) implies s0.contains(n) by {
                            if self.waiting(n) {
                                let k = choose|k: Rank| #[trigger] self.queue@.contains_key(k)
                                    && self.queue@[k] == n;
                                assert(q0.dom().contains(k));
                            }
                        }
                        crate::search::lemma_exhausted(start, s0);
                        assert(m0.queue.dom() =~= q0.dom());
                        assert(best_first_iterate(best_first_init(start), k0 + 1) == best_first_step(m0));
                        lemma_best_first_outcome_at(start, k0 + 1);
                    }
                    return None;
                },
                Some((key, cur)) => {
                    let prev = key.1;
                    assert(q0.contains_key(key));
                    proof {
                        assert(q0.dom().remove(key) == self.queue@.dom());
                        assert(m0.queue.dom() =~= q0.dom());
                        lemma_least_rank(m0.queue, key);
                        assert(plain_ranked(self.queue@) =~= m0.queue.remove(key));
                        assert(m0.queue[key] == *cur);
                    }
                    if self.ledger.contains(&cur) {
                        proof {
                            assert forall|i: int, n: T| #![trigger step(s0[i], n)] 0 <= i < s0.len()
                                && step(s0[i], n) implies s0.contains(n) || self.waiting(n) by {
                                if !s0.contains(n) {
                                    let k = choose|k: Rank| #[trigger] q0.contains_key(k) && q0[k]
                                        == n;
                                    assert(k != key);
                                    assert(self.queue@.contains_key(k));
                                }
                            }
                            assert(self.model() == best_first_step(m0));
                        }
                        self.steps = Ghost(k0 + 1);
                        continue;
                    }
                    let idx = self.ledger.record(share(&cur), prev);
                    let ghost s1 = self.ledger.seq();
                    let ghost c: T = s1[idx as int];
                    proof {
                        assert(reachable(start, s0[prev as int]));
                        lemma_reachable_step(start, s0[prev as int], c);
                        assert forall|i: int| #![trigger s1[i]] 0 <= i < s1.len() implies reachable(
                            s1[0],
                            s1[i],
                        ) by {
                            if i < s0.len() {
                                assert(s1[i] == s0[i]);
                            }
                        }
                        assert forall|i: int| 0 <= i < s1.len() implies reach.contains(
                            #[trigger] s1[i],
                        ) by {
                            assert(reachable(s1[0], s1[i]));
                        }
                        crate::search::lemma_ledger_within(s1, reach);
                    }
                    if cur.is_goal() {
                        let p = self.ledger.path_to(idx);
                        proof {
                            assert(s1[0] == start);
                            assert(s1.no_duplicates());
                            assert(s1[idx as int] != s1[0]);
                            assert(values(p@)[0] == start);
                            assert(reachable(start, c));
                            assert(best_first_iterate(best_first_init(start), k0 + 1) == best_first_step(m0));
                            lemma_best_first_outcome_at(start, k0 + 1);
                        }
                        return Some(p);
                    }
                    let ns = cur.neighbors();
                    let ghost q1 = self.queue@;
                    push_ranked(&mut self.queue, &ns, idx);
                    self.steps = Ghost(k0 + 1);
                    proof {
                        let ne = ranked_entries(c.spec_neighbors(), idx);
                        let rest = m0.queue.remove(key);
                        let pq = plain_ranked(self.queue@);
                        assert forall|k: Rank| #[trigger] pq.contains_key(k) == rest.union_prefer_right(
                            ne,
                        ).contains_key(k) by {
                            if k.1 == idx && k.2 < ns@.len() {
                                assert(values(ns@)[k.2 as int] == *ns@[k.2 as int]);
                            }
                        }
                        assert forall|k: Rank| #[trigger] rest.union_prefer_right(ne).contains_key(k)
                            implies pq[k] == rest.union_prefer_right(ne)[k] by {
                            if ne.contains_key(k) {
                                let j = k.2 as int;
                                assert(self.queue@[(ns@[j].spec_priority(), idx, j as usize)] == ns@[j]);
                                assert(values(ns@)[j] == *ns@[j]);
                            } else {
                                assert(q1.contains_key(k));
                            }
                        }
                        assert(pq =~= rest.union_prefer_right(ne));
                        assert(self.model() == best_first_step(m0));
                        assert forall|k: Rank| #[trigger] self.queue@.contains_key(k) implies {
                            &&& k.1 < self.ledger.len()
                            &&& step(s1[k.1 as int], *self.queue@[k])
                            &&& k.0 == self.queue@[k].spec_priority()
                        } by {
                            if q1.contains_key(k) {
                                assert(q0.contains_key(k));
                                assert(s1[k.1 as int] == s0[k.1 as int]);
                            } else {
                                let j = k.2 as int;
                                assert(self.queue@[(ns@[j].spec_priority(), idx, j as usize)]
                                    == ns@[j]);
                                assert(values(ns@)[j] == *ns@[j]);
                            }
                        }
                        assert forall|i: int| #![trigger s1[i]] 0 <= i < s1.len() implies reachable(
                            s1[0],
                            s1[i],
                        ) && (i > 0 ==> !s1[i].spec_is_goal()) by {
                            if i < s0.len() {
                                assert(s1[i] == s0[i]);
                            }
                        }
                        assert forall|i: int, n: T| #![trigger step(s1[i], n)] 0 <= i < s1.len()
                            && step(s1[i], n) implies s1.contains(n) || self.waiting(n) by {
                            if i < s0.len() {
                                assert(s1[i] == s0[i]);
                                assert(step(s0[i], n));
                                if s0.contains(n) {
                                    let m = choose|m: int| 0 <= m < s0.len() && s0[m] == n;
                                    assert(s1[m] == n);
                                } else if n != c {
                                    let k = choose|k: Rank| #[trigger] q0.contains_key(k) && q0[k]
                                        == n;
                                    assert(k != key);
                                    assert(q1.contains_key(k));
                                    assert(self.queue@.contains_key(k));
                                } else {
                                    assert(s1[idx as int] == n);
                                }
                            } else {
                                let m = choose|m: int| 0 <= m < ns@.len() && values(ns@)[m] == n;
                                let k = (ns@[m].spec_priority(), idx, m as usize);
                                assert(self.queue@[k] == ns@[m]);
                                assert(self.queue@.contains_key(k));
                            }
                        }
                    }
                },
            }
        }
    }
}

} // verus!
