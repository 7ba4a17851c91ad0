use vstd::prelude::*;
use std::rc::Rc;

verus! {

/// A searchable state: it lists the states one transition away and says
/// whether it is a goal. Both must be pure functions of the state.
///
/// The spec functions model the executable ones. A verified implementation
/// defines them; where an implementation leaves them as they are, they stand
/// for values that nothing is known about.
pub trait State: Sized + core::hash::Hash + Eq {
    /// The states directly reachable from `self`, in the order `neighbors` gives them.
    closed spec fn spec_neighbors(&self) -> Seq<Self> {
        arbitrary()
    }

    /// Whether `self` is a goal.
    closed spec fn spec_is_goal(&self) -> bool {
        arbitrary()
    }

    fn neighbors(&self) -> (r: Vec<Rc<Self>>)
        ensures
            values(r@) == self.spec_neighbors(),
    ;

    fn is_goal(&self) -> (r: bool)
        ensures
            r == self.spec_is_goal(),
    ;
}

/// A state with a priority: smaller values are expanded sooner.
pub trait PriorityState: State {
    closed spec fn spec_priority(&self) -> usize {
        arbitrary()
    }

    fn priority(&self) -> (r: usize)
        ensures
            r == self.spec_priority(),
    ;
}

/// The states behind a sequence of shared handles.
pub open spec fn values<T>(s: Seq<Rc<T>>) -> Seq<T> {
    s.map_values(|x: Rc<T>| *x)
}

/// One transition: `b` is among the neighbors of `a`.
pub open spec fn step<T: State>(a: T, b: T) -> bool {
    a.spec_neighbors().contains(b)
}

/// A non-empty sequence of states in which each state is a neighbor of the one before.
pub open spec fn is_walk<T: State>(p: Seq<T>) -> bool {
    &&& p.len() > 0
    &&& forall|i: int| #![trigger p[i]] 0 < i < p.len() ==> step(p[i - 1], p[i])
}

/// A walk that goes from `a` to `b`.
pub open spec fn walk_between<T: State>(p: Seq<T>, a: T, b: T) -> bool {
    is_walk(p) && p[0] == a && p.last() == b
}

/// `b` can be reached from `a` in zero or more transitions.
pub open spec fn reachable<T: State>(a: T, b: T) -> bool {
    exists|p: Seq<T>| walk_between(p, a, b)
}

/// Every state reachable from `start`.
pub open spec fn reachable_set<T: State>(start: T) -> Set<T> {
    Set::new(|s: T| reachable(start, s))
}

/// Some goal other than `start` itself is reachable from `start`.
pub open spec fn goal_reachable<T: State>(start: T) -> bool {
    exists|s: T| #[trigger] reachable(start, s) && s != start && s.spec_is_goal()
}

/// A solution: a walk from `start` to a goal that visits no state twice.
pub open spec fn is_solution<T: State>(start: T, p: Seq<T>) -> bool {
    &&& is_walk(p)
    &&& p[0] == start
    &&& p.last().spec_is_goal()
    &&& p.no_duplicates()
}

/// The states from entry `i` of a ledger back to its root, following
/// parents: `seen[i]` first.
pub open spec fn back_chain<T>(seen: Seq<T>, parents: Seq<Option<usize>>, i: int) -> Seq<T>
    decreases i,
{
    if 0 < i < parents.len() && parents[i] is Some && parents[i].unwrap() < i {
        seq![seen[i]] + back_chain(seen, parents, parents[i].unwrap() as int)
    } else {
        seq![seen[i]]
    }
}

/// No walk from `start` to a goal other than `start` has fewer than `len` states.
pub open spec fn no_shorter_solution<T: State>(start: T, len: nat) -> bool {
    forall|q: Seq<T>, g: T|
        #[trigger] walk_between(q, start, g) && g != start && g.spec_is_goal() ==> len <= q.len()
}

/// A prefix of a walk is a walk.
pub proof fn lemma_walk_prefix<T: State>(q: Seq<T>, k: int)
    requires
        is_walk(q),
        1 <= k <= q.len(),
    ensures
        is_walk(q.subrange(0, k)),
{
    let r = q.subrange(0, k);
    assert forall|i: int| #![trigger r[i]] 0 < i < r.len() implies step(r[i - 1], r[i]) by {
        assert(r[i] == q[i]);
        assert(r[i - 1] == q[i - 1]);
    }
}

pub proof fn lemma_reachable_refl<T: State>(a: T)
    ensures
        reachable(a, a),
{
    let p = seq![a];
    assert(walk_between(p, a, a));
}

pub proof fn lemma_reachable_step<T: State>(a: T, b: T, c: T)
    requires
        reachable(a, b),
        step(b, c),
    ensures
        reachable(a, c),
{
    let p = choose|p: Seq<T>| walk_between(p, a, b);
    let q = p.push(c);
    assert forall|i: int| #![trigger q[i]] 0 < i < q.len() implies step(q[i - 1], q[i]) by {
        if i < p.len() {
            assert(q[i] == p[i]);
            assert(q[i - 1] == p[i - 1]);
        }
    }
    assert(walk_between(q, a, c));
}

/// A set that holds `start` and is closed under transitions holds every
/// state reachable from `start`.
pub proof fn lemma_closed_holds_reachable<T: State>(start: T, s: Set<T>, t: T)
    requires
        s.contains(start),
        forall|x: T, y: T| s.contains(x) && #[trigger] step(x, y) ==> s.contains(y),
        reachable(start, t),
    ensures
        s.contains(t),
{
    let p = choose|p: Seq<T>| walk_between(p, start, t);
    lemma_closed_holds_walk(start, s, p, p.len() - 1);
}

proof fn lemma_closed_holds_walk<T: State>(start: T, s: Set<T>, p: Seq<T>, k: int)
    requires
        s.contains(start),
        forall|x: T, y: T| s.contains(x) && #[trigger] step(x, y) ==> s.contains(y),
        is_walk(p),
        p[0] == start,
        0 <= k < p.len(),
    ensures
        s.contains(p[k]),
    decreases k,
{
    if k > 0 {
        lemma_closed_holds_walk(start, s, p, k - 1);
        assert(step(p[k - 1], p[k]));
    }
}

/// A state without neighbors reaches only itself: the set of states reachable
/// from it is finite and holds no goal other than itself, so a search from it
/// returns no path.
pub proof fn lemma_dead_end<T: State>(start: T)
    requires
        start.spec_neighbors().len() == 0,
    ensures
        reachable_set(start) == set![start],
        reachable_set(start).finite(),
        !goal_reachable(start),
{
    let s = set![start];
    assert forall|x: T, y: T| s.contains(x) && #[trigger] step(x, y) implies s.contains(y) by {
        assert(start.spec_neighbors().contains(y) ==> false);
    }
    assert forall|t: T| reachable(start, t) implies s.contains(t) by {
        lemma_closed_holds_reachable(start, s, t);
    }
    lemma_reachable_refl(start);
    assert(reachable_set(start) =~= s);
}

} // verus!
