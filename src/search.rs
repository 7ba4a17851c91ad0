use vstd::prelude::*;
use vstd::std_specs::hash::obeys_key_model;
use std::collections::VecDeque;
use std::rc::Rc;
use crate::ledger::{Ledger, share};
use crate::state::{
    State, step, values, walk_between, reachable, reachable_set, goal_reachable, is_solution,
    no_shorter_solution, back_chain, lemma_reachable_refl, lemma_reachable_step,
    lemma_closed_holds_reachable, lemma_walk_prefix,
};

verus! {

/// What a breadth-first search holds between two steps, over plain values:
/// the recorded states and their parents, the frontier, and, once it is
/// done, the index of the goal found, if any.
pub struct BfsSnapshot<T> {
    pub seen: Seq<T>,
    pub parents: Seq<Option<usize>>,
    pub queue: Seq<(T, usize)>,
    pub found: Option<usize>,
    pub done: bool,
}

/// Frontier entries for the states `ns`, all discovered from entry `parent`.
pub open spec fn entries_of<T>(ns: Seq<T>, parent: usize) -> Seq<(T, usize)> {
    ns.map_values(|n: T| (n, parent))
}

/// The frontier entries behind shared handles, as plain values.
pub open spec fn plain_entries<T>(q: Seq<(Rc<T>, usize)>) -> Seq<(T, usize)> {
    q.map_values(|e: (Rc<T>, usize)| (*e.0, e.1))
}

/// The search right after construction: the start is recorded as the root
/// and its neighbors wait in the frontier.
pub open spec fn bfs_init<T: State>(start: T) -> BfsSnapshot<T> {
    BfsSnapshot {
        seen: seq![start],
        parents: seq![None],
        queue: entries_of(start.spec_neighbors(), 0),
        found: None,
        done: false,
    }
}

/// One step of the search: pop the front entry; drop it if its state is
/// recorded; else record it, stop if it is a goal, and push its neighbors.
pub open spec fn bfs_step<T: State>(st: BfsSnapshot<T>) -> BfsSnapshot<T> {
    if st.done {
        st
    } else if st.queue.len() == 0 {
        BfsSnapshot { seen: st.seen, parents: st.parents, queue: st.queue, found: None, done: true }
    } else {
        let n = st.queue[0].0;
        let p = st.queue[0].1;
        let rest = st.queue.drop_first();
        if st.seen.contains(n) {
            BfsSnapshot { seen: st.seen, parents: st.parents, queue: rest, found: None, done: false }
        } else {
            let i = st.seen.len() as usize;
            let seen = st.seen.push(n);
            let parents = st.parents.push(Some(p));
            if n.spec_is_goal() {
                BfsSnapshot { seen, parents, queue: rest, found: Some(i), done: true }
            } else {
                BfsSnapshot {
                    seen,
                    parents,
                    queue: rest + entries_of(n.spec_neighbors(), i),
                    found: None,
                    done: false,
                }
            }
        }
    }
}

/// The search after `k` steps.
pub open spec fn bfs_iterate<T: State>(st: BfsSnapshot<T>, k: nat) -> BfsSnapshot<T>
    decreases k,
{
    if k == 0 {
        st
    } else {
        bfs_step(bfs_iterate(st, (k - 1) as nat))
    }
}

/// What a breadth-first search from `start` returns once it is done: the
/// path to the goal found, or `None`.
pub open spec fn bfs_outcome<T: State>(start: T) -> Option<Seq<T>> {
    let st = bfs_iterate(bfs_init(start), choose|k: nat| bfs_iterate(bfs_init(start), k).done);
    match st.found {
        Some(i) => Some(back_chain(st.seen, st.parents, i as int).reverse()),
        None => None,
    }
}

/// Once the search is done, further steps change nothing.
proof fn lemma_bfs_done_stays<T: State>(st: BfsSnapshot<T>, k: nat, j: nat)
    requires
        bfs_iterate(st, k).done,
        k <= j,
    ensures
        bfs_iterate(st, j) == bfs_iterate(st, k),
    decreases j - k,
{
    if j > k {
        lemma_bfs_done_stays(st, k, (j - 1) as nat);
    }
}

/// The outcome is read from any step count at which the search is done.
proof fn lemma_bfs_outcome_at<T: State>(start: T, k: nat)
    requires
        bfs_iterate(bfs_init(start), k).done,
    ensures
        bfs_outcome(start) == (match bfs_iterate(bfs_init(start), k).found {
            Some(i) => Some(
                back_chain(
                    bfs_iterate(bfs_init(start), k).seen,
                    bfs_iterate(bfs_init(start), k).parents,
                    i as int,
                ).reverse(),
            ),
            None => None,
        }),
{
    let init = bfs_init(start);
    let k2 = choose|k: nat| bfs_iterate(init, k).done;
    if k <= k2 {
        lemma_bfs_done_stays(init, k, k2);
    } else {
        lemma_bfs_done_stays(init, k2, k);
    }
}

/// Two breadth-first searches from equal start states return the same
/// result: the outcome depends on the start state alone.
pub proof fn lemma_bfs_deterministic<T: State>(a: T, b: T)
    requires
        a == b,
    ensures
        bfs_outcome(a) == bfs_outcome(b),
{
}

/// Breadth-first search from one start state.
///
/// The frontier is a FIFO queue of (candidate, index of its parent in the
/// ledger). Duplicates are dropped when they are popped, not when pushed.
pub struct Tree<T: State> {
    queue: VecDeque<(Rc<T>, usize)>,
    ledger: Ledger<T>,
    /// Every frontier entry lies `level` or `level + 1` transitions from the start.
    level: Ghost<nat>,
    /// How many entries at the back of the frontier lie at `level + 1`.
    upper: Ghost<nat>,
    /// The number of steps taken since construction.
    steps: Ghost<nat>,
}

/// Appends each of `ns`, with `parent`, to the back of `queue`, in order.
fn push_neighbors<T: State>(queue: &mut VecDeque<(Rc<T>, usize)>, ns: &Vec<Rc<T>>, parent: usize)
    ensures
        final(queue)@.len() == old(queue)@.len() + ns@.len(),
        forall|j: int| 0 <= j < old(queue)@.len() ==> #[trigger] final(queue)@[j] == old(queue)@[j],
        forall|j: int|
            0 <= j < ns@.len() ==> #[trigger] final(queue)@[old(queue)@.len() + j] == (
            ns@[j],
            parent,
        ),
{
    let ghost q0 = queue@;
    let mut k: usize = 0;
    while k < ns.len()
        invariant
            k <= ns@.len(),
            queue@.len() == q0.len() + k,
            forall|j: int| 0 <= j < q0.len() ==> #[trigger] queue@[j] == q0[j],
            forall|j: int| 0 <= j < k ==> #[trigger] queue@[q0.len() + j] == (ns@[j], parent),
        decreases ns@.len() - k,
    {
        queue.push_back((share(&ns[k]), parent));
        k = k + 1;
    }
}

impl<T: State> Tree<T> {
    /// The state the search started from.
    pub closed spec fn start(&self) -> T {
        self.ledger.seq()[0]
    }

    /// The search as plain values.
    pub closed spec fn model(&self) -> BfsSnapshot<T> {
        BfsSnapshot {
            seen: self.ledger.seq(),
            parents: self.ledger.parents@,
            queue: plain_entries(self.queue@),
            found: None,
            done: false,
        }
    }

    /// The depth of frontier entry `j`: one more than its parent's.
    pub closed spec fn entry_depth(&self, j: int) -> nat {
        self.ledger.depth(self.queue@[j].1 as int) + 1
    }

    /// `n` waits in the frontier, discovered from ledger entry `i`.
    pub closed spec fn waits_from(&self, n: T, i: int) -> bool {
        exists|j: int|
            #![trigger self.queue@[j]]
            0 <= j < self.queue@.len() && self.queue@[j].0 == n && self.queue@[j].1 == i
    }

    /// The search is consistent: every recorded state is reachable from the
    /// start and none but the start is a goal; every frontier entry is a
    /// neighbor of its recorded parent; every neighbor of a recorded state is
    /// recorded or waits in the frontier with that parent. The frontier is
    /// sorted by depth, within two adjacent levels; every state within fewer
    /// than `level` transitions of the start is recorded; and no recorded
    /// state can be reached in fewer transitions than its depth.
    pub closed spec fn wf(&self) -> bool {
        let s = self.ledger.seq();
        let level = self.level@;
        &&& self.ledger.wf()
        &&& self.model() == bfs_iterate(bfs_init(s[0]), self.steps@)
        &&& level >= 1
        &&& forall|j: int|
            #![trigger self.queue@[j]]
            0 <= j < self.queue@.len() ==> {
                &&& self.queue@[j].1 < self.ledger.len()
                &&& step(s[self.queue@[j].1 as int], *self.queue@[j].0)
                &&& level <= self.entry_depth(j) <= level + 1
            }
        &&& forall|j: int, k: int|
            #![trigger self.queue@[j], self.queue@[k]]
            0 <= j < k < self.queue@.len() ==> self.entry_depth(j) <= self.entry_depth(k)
        &&& self.upper@ <= self.queue@.len()
        &&& forall|j: int|
            #![trigger self.queue@[j]]
            0 <= j < self.queue@.len() ==> (self.entry_depth(j) == level <==> j
                < self.queue@.len() - self.upper@)
        &&& forall|i: int|
            #![trigger s[i]]
            0 <= i < s.len() ==> reachable(s[0], s[i]) && (i > 0 ==> !s[i].spec_is_goal())
        &&& forall|i: int, n: T|
            #![trigger step(s[i], n)]
            0 <= i < s.len() && step(s[i], n) ==> s.contains(n) || self.waits_from(n, i)
        &&& forall|q: Seq<T>, n: T|
            #![trigger walk_between(q, s[0], n)]
            walk_between(q, s[0], n) && q.len() <= level ==> s.contains(n)
        &&& forall|q: Seq<T>, i: int|
            #![trigger walk_between(q, s[0], s[i])]
            0 <= i < s.len() && walk_between(q, s[0], s[i]) ==> self.ledger.depth(i) + 1 <= q.len()
    }

    /// When every frontier entry is deeper than `level`, every state within
    /// `level` transitions of the start is recorded.
    proof fn lemma_next_level(&self)
        requires
            self.wf(),
            forall|j: int|
                0 <= j < self.queue@.len() ==> #[trigger] self.entry_depth(j) >= self.level@ + 1,
        ensures
            forall|q: Seq<T>, n: T|
                #![trigger walk_between(q, self.ledger.seq()[0], n)]
                walk_between(q, self.ledger.seq()[0], n) && q.len() <= self.level@ + 1
                    ==> self.ledger.seq().contains(n),
    {
        let s = self.ledger.seq();
        let level = self.level@;
        assert forall|q: Seq<T>, n: T|
            #![trigger walk_between(q, s[0], n)]
            walk_between(q, s[0], n) && q.len() <= level + 1 implies s.contains(n) by {
            if q.len() == level + 1 {
                let k = q.len() - 1;
                let q1 = q.subrange(0, k);
                lemma_walk_prefix(q, k);
                assert(q1.last() == q[k - 1]);
                assert(walk_between(q1, s[0], q[k - 1]));
                let i = choose|i: int| 0 <= i < s.len() && s[i] == q[k - 1];
                assert(walk_between(q1, s[0], s[i]));
                assert(step(q[k - 1], q[k]));
                assert(step(s[i], n));
                if !s.contains(n) {
                    let j = choose|j: int|
                        #![trigger self.queue@[j]]
                        0 <= j < self.queue@.len() && self.queue@[j].0 == n && self.queue@[j].1 == i;
                    assert(self.entry_depth(j) >= level + 1);
                }
            }
        }
    }

    /// A search from `start`: `start` is recorded as the root and its
    /// neighbors wait in the frontier. `start` itself is never goal-checked:
    /// a start that is a goal is not reported, and a walk that leads back to
    /// it is dropped as already recorded. States must compare and hash
    /// consistently.
    pub fn new(start: Rc<T>) -> (r: Tree<T>)
        requires
            obeys_key_model::<T>(),
        ensures
            r.wf(),
            r.start() == *start,
            r.model() == bfs_init(*start),
    {
        let ledger = Ledger::new(&start);
        let mut queue: VecDeque<(Rc<T>, usize)> = VecDeque::new();
        let ns = start.neighbors();
        push_neighbors(&mut queue, &ns, 0);
        let r = Tree { queue, ledger, level: Ghost(1), upper: Ghost(0), steps: Ghost(0) };
        proof {
            let s = r.ledger.seq();
            assert(r.ledger.parents@ =~= seq![None]);
            assert forall|j: int| 0 <= j < ns@.len() implies #[trigger] plain_entries(r.queue@)[j]
                == entries_of(start.spec_neighbors(), 0)[j] by {
                assert(r.queue@[0 + j] == (ns@[j], 0usize));
                assert(values(ns@)[j] == *ns@[j]);
            }
            assert(plain_entries(r.queue@) =~= entries_of(start.spec_neighbors(), 0));
            assert(r.model() == bfs_init(s[0]));
            lemma_reachable_refl(s[0]);
            assert(r.ledger.depth(0) == 0);
            assert forall|q: Seq<T>, n: T| #![trigger walk_between(q, s[0], n)] walk_between(
                q,
                s[0],
                n,
            ) && q.len() <= 1 implies s.contains(n) by {
                assert(s[0] == n);
            }
            assert forall|j: int| #![trigger r.queue@[j]] 0 <= j < r.queue@.len() implies r.queue@[j].1
                < r.ledger.len() && step(s[r.queue@[j].1 as int], *r.queue@[j].0) by {
                assert(r.queue@[0 + j] == (ns@[j], 0usize));
                assert(values(ns@)[j] == *ns@[j]);
            }
            assert forall|i: int, n: T| #![trigger step(s[i], n)] 0 <= i < s.len() && step(s[i], n)
                implies s.contains(n) || r.waits_from(n, i) by {
                let j = choose|j: int| 0 <= j < ns@.len() && values(ns@)[j] == n;
                assert(r.queue@[0 + j] == (ns@[j], 0usize));
            }
        }
        r
    }

    /// While a goal other than the start lies at the end of the walk `q`,
    /// `level` stays below the length of `q`.
    proof fn lemma_level_below(&self, q: Seq<T>, g: T)
        requires
            self.wf(),
            walk_between(q, self.start(), g),
            g != self.start(),
            g.spec_is_goal(),
        ensures
            self.level@ < q.len(),
    {
        let s = self.ledger.seq();
        if q.len() <= self.level@ {
            assert(walk_between(q, s[0], g));
            let i = choose|i: int| 0 <= i < s.len() && s[i] == g;
            assert(i != 0);
        }
    }

    /// Dropping a front entry whose state is recorded keeps the search consistent.
    proof fn lemma_drop_keeps(t0: Self, t1: Self)
        requires
            t0.wf(),
            t0.queue@.len() > 0,
            t0.entry_depth(0) == t0.level@,
            t0.ledger.seq().contains(*t0.queue@[0].0),
            t1.ledger == t0.ledger,
            t1.queue@ == t0.queue@.subrange(1, t0.queue@.len() as int),
            t1.level == t0.level,
            t1.upper == t0.upper,
            t1.steps@ == t0.steps@ + 1,
        ensures
            t1.wf(),
            t1.model() == bfs_step(t0.model()),
    {
        let s0 = t0.ledger.seq();
        let q0 = t0.queue@;
        let m0 = t0.model();
        assert(0 < q0.len() - t0.upper@) by {
            assert(t0.queue@[0] == q0[0]);
        }
        assert forall|j: int| #![trigger t1.queue@[j]] 0 <= j < t1.queue@.len()
            implies t1.queue@[j] == q0[j + 1] && t1.entry_depth(j) == t0.entry_depth(j + 1) by {}
        assert(plain_entries(t1.queue@) =~= m0.queue.drop_first());
        assert forall|i: int, n: T| #![trigger step(s0[i], n)] 0 <= i < s0.len()
            && step(s0[i], n) implies s0.contains(n) || t1.waits_from(n, i) by {
            if !s0.contains(n) {
                let j = choose|j: int|
                    #![trigger q0[j]]
                    0 <= j < q0.len() && q0[j].0 == n && q0[j].1 == i;
                assert(j != 0);
                assert(t1.queue@[j - 1] == q0[j]);
            }
        }
        assert forall|j: int, k: int|
            #![trigger t1.queue@[j], t1.queue@[k]]
            0 <= j < k < t1.queue@.len() implies t1.entry_depth(j) <= t1.entry_depth(k) by {
            assert(t0.entry_depth(j + 1) <= t0.entry_depth(k + 1));
        }
        assert(t1.model() == bfs_step(m0));
    }

    /// Recording the front entry's state, which is no goal, and pushing its
    /// neighbors keeps the search consistent.
    #[verifier::spinoff_prover]
    proof fn lemma_expand_keeps(t0: Self, t1: Self, ns: Seq<Rc<T>>)
        requires
            t0.wf(),
            t0.queue@.len() > 0,
            t0.entry_depth(0) == t0.level@,
            !t0.ledger.seq().contains(*t0.queue@[0].0),
            !t0.queue@[0].0.spec_is_goal(),
            t1.ledger.wf(),
            t1.ledger.seq() == t0.ledger.seq().push(*t0.queue@[0].0),
            t1.ledger.parents@ == t0.ledger.parents@.push(Some(t0.queue@[0].1)),
            t1.ledger.depth(t0.ledger.len() as int) == t0.ledger.depth(t0.queue@[0].1 as int) + 1,
            forall|j: int|
                0 <= j < t0.ledger.len() ==> #[trigger] t1.ledger.depth(j) == t0.ledger.depth(j),
            values(ns) == t0.queue@[0].0.spec_neighbors(),
            t1.queue@.len() == t0.queue@.len() - 1 + ns.len(),
            forall|j: int|
                0 <= j < t0.queue@.len() - 1 ==> #[trigger] t1.queue@[j] == t0.queue@[j + 1],
            forall|m: int|
                0 <= m < ns.len() ==> #[trigger] t1.queue@[t0.queue@.len() - 1 + m] == (
                    ns[m],
                    t0.ledger.len() as usize,
                ),
            t1.level == t0.level,
            t1.upper@ == t0.upper@ + ns.len(),
            t1.steps@ == t0.steps@ + 1,
        ensures
            t1.wf(),
            t1.model() == bfs_step(t0.model()),
    {
        let s0 = t0.ledger.seq();
        let s1 = t1.ledger.seq();
        assert(0 < t0.queue@.len() - t0.upper@) by {
            assert(t0.queue@[0] == t0.queue@[0]);
        }
        let q0 = t0.queue@;
        let m0 = t0.model();
        let level = t0.level@;
        let idx = t0.ledger.len() as usize;
        let prev = q0[0].1;
        let c: T = s1[idx as int];
        let start = s0[0];
        assert(s1[0] == start);
        let n1 = q0.len() - 1;
        assert(t0.queue@[0].1 < t0.ledger.len());
        assert(reachable(start, s0[prev as int]));
        assert(step(s0[prev as int], c));
        lemma_reachable_step(start, s0[prev as int], c);
        let mq = plain_entries(t1.queue@);
        let rest = m0.queue.drop_first();
        let en = entries_of(c.spec_neighbors(), idx);
        assert forall|j: int| 0 <= j < mq.len() implies #[trigger] mq[j] == (rest + en)[j] by {
            if j < n1 {
                assert(t1.queue@[j] == q0[j + 1]);
            } else {
                let m = j - n1;
                assert(t1.queue@[n1 + m] == (ns[m], idx));
                assert(values(ns)[m] == *ns[m]);
            }
        }
        assert(mq =~= rest + en);
        assert(t1.model() == bfs_step(m0));
        assert forall|j: int| #![trigger t1.queue@[j]] 0 <= j < n1 implies t1.entry_depth(j)
            == t0.entry_depth(j + 1) by {
            assert(t1.queue@[j] == q0[j + 1]);
            assert(q0[j + 1].1 < t0.ledger.len());
        }
        assert forall|j: int| #![trigger t1.queue@[j]] 0 <= j < t1.queue@.len() implies {
            &&& t1.queue@[j].1 < t1.ledger.len()
            &&& step(s1[t1.queue@[j].1 as int], *t1.queue@[j].0)
            &&& level <= t1.entry_depth(j) <= level + 1
        } by {
            if j < n1 {
                assert(t1.queue@[j] == q0[j + 1]);
                assert(s1[q0[j + 1].1 as int] == s0[q0[j + 1].1 as int]);
            } else {
                let m = j - n1;
                assert(t1.queue@[n1 + m] == (ns[m], idx));
                assert(values(ns)[m] == *ns[m]);
            }
        }
        assert forall|j: int| #![trigger t1.queue@[j]] 0 <= j < t1.queue@.len() implies (t1.entry_depth(j)
            == level <==> j < t1.queue@.len() - t1.upper@) by {
            if j < n1 {
                assert(t1.entry_depth(j) == t0.entry_depth(j + 1));
                assert(t0.queue@[j + 1] == q0[j + 1]);
            } else {
                let m = j - n1;
                assert(t1.queue@[n1 + m] == (ns[m], idx));
            }
        }
        assert forall|j: int, k: int|
            #![trigger t1.queue@[j], t1.queue@[k]]
            0 <= j < k < t1.queue@.len() implies t1.entry_depth(j) <= t1.entry_depth(k) by {
            if k < n1 {
                assert(t0.entry_depth(j + 1) <= t0.entry_depth(k + 1));
            } else {
                let m = k - n1;
                assert(t1.queue@[n1 + m] == (ns[m], idx));
                if j < n1 {
                    assert(t1.entry_depth(j) == t0.entry_depth(j + 1));
                } else {
                    let m2 = j - n1;
                    assert(t1.queue@[n1 + m2] == (ns[m2], idx));
                }
            }
        }
        assert forall|i: int| #![trigger s1[i]] 0 <= i < s1.len() implies reachable(s1[0], s1[i])
            && (i > 0 ==> !s1[i].spec_is_goal()) by {
            if i < s0.len() {
                assert(s1[i] == s0[i]);
            }
        }
        assert forall|i: int, n: T| #![trigger step(s1[i], n)] 0 <= i < s1.len() && step(s1[i], n)
            implies s1.contains(n) || t1.waits_from(n, i) by {
            if i < s0.len() {
                assert(s1[i] == s0[i]);
                assert(step(s0[i], n));
                if s0.contains(n) {
                    let m = choose|m: int| 0 <= m < s0.len() && s0[m] == n;
                    assert(s1[m] == n);
                } else if n != c {
                    let j = choose|j: int|
                        #![trigger q0[j]]
                        0 <= j < q0.len() && q0[j].0 == n && q0[j].1 == i;
                    assert(j != 0);
                    assert(t1.queue@[j - 1] == q0[j]);
                } else {
                    assert(s1[idx as int] == n);
                }
            } else {
                let m = choose|m: int| 0 <= m < ns.len() && values(ns)[m] == n;
                assert(t1.queue@[n1 + m] == (ns[m], idx));
            }
        }
        assert forall|q: Seq<T>, n: T|
            #![trigger walk_between(q, s1[0], n)]
            walk_between(q, s1[0], n) && q.len() <= level implies s1.contains(n) by {
            assert(walk_between(q, s0[0], n));
            let m = choose|m: int| 0 <= m < s0.len() && s0[m] == n;
            assert(s1[m] == n);
        }
        assert forall|q: Seq<T>, i: int|
            #![trigger walk_between(q, s1[0], s1[i])]
            0 <= i < s1.len() && walk_between(q, s1[0], s1[i]) implies t1.ledger.depth(i) + 1
            <= q.len() by {
            if i < s0.len() {
                assert(s1[i] == s0[i]);
                assert(walk_between(q, s0[0], s0[i]));
            } else if q.len() <= level {
                assert(walk_between(q, s0[0], c));
            }
        }
    }

    /// Runs the search to the end. Returns a path from the start to the
    /// first goal popped, or `None` once the frontier is exhausted. It ends
    /// when the start reaches finitely many states or reaches a goal.
    #[verifier::rlimit(100)]
    #[verifier::spinoff_prover]
    pub fn run(&mut self) -> (r: Option<Vec<Rc<T>>>)
        requires
            old(self).wf(),
            reachable_set(old(self).start()).finite() || goal_reachable(old(self).start()),
        ensures
            r is Some <==> goal_reachable(old(self).start()),
            match r {
                Some(p) => {
                    &&& is_solution(old(self).start(), values(p@))
                    &&& p@.len() >= 2
                    &&& no_shorter_solution(old(self).start(), p@.len())
                    &&& bfs_outcome(old(self).start()) == Some(values(p@))
                },
                None => bfs_outcome(old(self).start()) is None,
            },
    {
        let ghost start = old(self).start();
        let ghost reach = reachable_set(start);
        // Without a reachable goal the reachable states are finitely many, and
        // each new record uses one up; with one, the search never passes its
        // level, and each level's entries are popped one by one.
        let ghost finite = !goal_reachable(start);
        let ghost goal = choose|g: T| #[trigger] reachable(start, g) && g != start && g.spec_is_goal();
        let ghost walk = choose|q: Seq<T>| walk_between(q, start, goal);
        let ghost bound: int = if finite { 0 } else { walk.len() as int };
        proof {
            let s = self.ledger.seq();
            if finite {
                assert forall|i: int| 0 <= i < s.len() implies reach.contains(#[trigger] s[i]) by {
                    assert(reachable(s[0], s[i]));
                }
                lemma_ledger_within(s, reach);
            } else {
                self.lemma_level_below(walk, goal);
            }
        }
        loop
            invariant
                self.wf(),
                self.start() == start,
                old(self).start() == start,
                reach == reachable_set(start),
                finite == !goal_reachable(start),
                finite ==> reach.finite() && self.ledger.len() <= reach.len(),
                !finite ==> walk_between(walk, start, goal) && goal != start && goal.spec_is_goal()
                    && bound == walk.len() && self.level@ < bound,
            decreases
                if finite { reach.len() - self.ledger.len() } else { 0 },
                if finite { self.queue@.len() as int } else { bound - self.level@ },
                if finite { 0 } else { self.queue@.len() - self.upper@ },
        {
            // Once the whole frontier is one level deeper, so is `level`.
            let ghost deeper = self.queue@.len() > 0 && self.entry_depth(0) == self.level@ + 1;
            proof {
                if deeper {
                    assert forall|j: int| 0 <= j < self.queue@.len() implies #[trigger] self.entry_depth(j)
                        >= self.level@ + 1 by {
                        if j > 0 {
                            assert(self.entry_depth(0) <= self.entry_depth(j));
                        }
                    }
                    self.lemma_next_level();
                }
            }
            self.level = Ghost(if deeper { self.level@ + 1 } else { self.level@ });
            self.upper = Ghost(if deeper { 0 } else { self.upper@ });
            let ghost s0 = self.ledger.seq();
            let ghost q0 = self.queue@;
            let ghost level = self.level@;
            let ghost t0 = *self;
            let ghost m0 = self.model();
            let ghost k0 = self.steps@;
            match self.queue.pop_front() {
                None => {
                    proof {
                        assert forall|i: int, n: T| #![trigger step(s0[i], n)] 0 <= i < s0.len()
                            && step(s0[i], n) implies s0.contains(n) by {
                            assert(!t0.waits_from(n, i));
                        }
                        lemma_exhausted(start, s0);
                        assert(bfs_iterate(bfs_init(start), k0 + 1) == bfs_step(m0));
                        lemma_bfs_outcome_at(start, k0 + 1);
                    }
                    return None;
                },
                Some((cur, prev)) => {
                    assert(q0[0] == (cur, prev));
                    assert(t0.entry_depth(0) == level);
                    if self.ledger.contains(&cur) {
                        self.steps = Ghost(k0 + 1);
                        proof {
                            let t1 = *self;
                            Self::lemma_drop_keeps(t0, t1);
                            if !finite {
                                self.lemma_level_below(walk, goal);
                            }
                        }
                        continue;
                    }
                    assert(step(s0[prev as int], *cur)) by {
                        assert(q0[0].1 == prev);
                    }
                    let idx = self.ledger.record(share(&cur), prev);
                    let ghost s1 = self.ledger.seq();
                    let ghost c: T = s1[idx as int];
                    proof {
                        assert(reachable(start, s0[prev as int]));
                        lemma_reachable_step(start, s0[prev as int], c);
                        if finite {
                            assert forall|i: int| 0 <= i < s1.len() implies reach.contains(
                                #[trigger] s1[i],
                            ) by {
                                if i < s0.len() {
                                    assert(s1[i] == s0[i]);
                                    assert(reachable(s0[0], s0[i]));
                                }
                            }
                            lemma_ledger_within(s1, reach);
                        }
                    }
                    if cur.is_goal() {
                        let p = self.ledger.path_to(idx);
                        proof {
                            assert(s1[0] == start);
                            assert(s1.no_duplicates());
                            assert(s1[idx as int] != s1[0]);
                            assert(values(p@)[0] == start);
                            assert forall|q: Seq<T>, g: T|
                                #[trigger] walk_between(q, start, g) && g != start
                                    && g.spec_is_goal() implies p@.len() <= q.len() by {
                                if q.len() <= level {
                                    assert(walk_between(q, s0[0], g));
                                    let i = choose|i: int| 0 <= i < s0.len() && s0[i] == g;
                                    assert(i != 0);
                                }
                            }
                            assert(m0.queue[0].0 == c && m0.queue[0].1 == prev);
                            assert(bfs_iterate(bfs_init(start), k0 + 1) == bfs_step(m0));
                            lemma_bfs_outcome_at(start, k0 + 1);
                        }
                        return Some(p);
                    }
                    let ns = cur.neighbors();
                    push_neighbors(&mut self.queue, &ns, idx);
                    self.steps = Ghost(k0 + 1);
                    self.upper = Ghost(self.upper@ + ns@.len());
                    proof {
                        let t1 = *self;
                        Self::lemma_expand_keeps(t0, t1, ns@);
                        if !finite {
                            self.lemma_level_below(walk, goal);
                        }
                    }
                },
            }
        }
    }
}

/// A ledger closed under transitions, with no goal but its root, shows
/// that no goal other than the root is reachable.
pub(crate) proof fn lemma_exhausted<T: State>(start: T, s: Seq<T>)
    requires
        s.len() > 0,
        s[0] == start,
        forall|i: int| #![trigger s[i]] 0 < i < s.len() ==> !s[i].spec_is_goal(),
        forall|i: int, n: T| #![trigger step(s[i], n)] 0 <= i < s.len() && step(s[i], n) ==> s.contains(n),
    ensures
        !goal_reachable(start),
{
    let set = s.to_set();
    assert forall|x: T, y: T| set.contains(x) && #[trigger] step(x, y) implies set.contains(y) by {
        let i = choose|i: int| 0 <= i < s.len() && s[i] == x;
        assert(step(s[i], y));
    }
    assert(set.contains(s[0]));
    assert forall|t: T| #[trigger] reachable(start, t) && t != start implies !t.spec_is_goal() by {
        lemma_closed_holds_reachable(start, set, t);
        let i = choose|i: int| 0 <= i < s.len() && s[i] == t;
        assert(i != 0);
    }
}

/// Every state of a ledger that lies within the finite set `reach`, and has
/// no duplicates, is no longer than `reach`.
pub(crate) proof fn lemma_ledger_within<T>(s: Seq<T>, reach: Set<T>)
    requires
        reach.finite(),
        s.no_duplicates(),
        forall|i: int| 0 <= i < s.len() ==> reach.contains(#[trigger] s[i]),
    ensures
        s.len() <= reach.len(),
{
    s.unique_seq_to_set();
    vstd::set_lib::lemma_len_subset(s.to_set(), reach);
}

} // verus!
