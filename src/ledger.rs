use vstd::prelude::*;
use vstd::std_specs::hash::obeys_key_model;
use std::collections::HashMap;
use std::rc::Rc;
use ahash::RandomState;
use crate::state::{State, step, values, walk_between, back_chain};

verus! {

/// ahash's hasher builder, held opaque: the index map's hasher.
#[verifier::external_type_specification]
#[verifier::external_body]
pub struct ExRandomState(RandomState);

/// Relies on ahash's `HashMapExt::new`: a new map holds no entry.
#[verifier::external_body]
fn empty_index<T: State>() -> (r: HashMap<Rc<T>, usize, RandomState>)
    ensures
        r@.dom() == Set::<Rc<T>>::empty(),
{
    <ahash::HashMap<Rc<T>, usize> as ahash::HashMapExt>::new()
}

/// Relies on std's `HashMap::get` over ahash's `RandomState`: the value stored
/// under a key equal to `k`, if any. `Rc` compares and hashes through `T`;
/// ahash's `RandomState` builds every hasher of one map from the same keys.
/// (vstd states this of std's own `RandomState` only.)
#[verifier::external_body]
fn index_get<T: State>(m: &HashMap<Rc<T>, usize, RandomState>, k: &Rc<T>) -> (r: Option<usize>)
    requires
        obeys_key_model::<T>(),
    ensures
        r == (if m@.contains_key(*k) { Some(m@[*k]) } else { None::<usize> }),
{
    m.get(k).copied()
}

/// Relies on std's `HashMap::insert` over ahash's `RandomState`: `k` then maps
/// to `v`, and every other key keeps its value.
#[verifier::external_body]
fn index_insert<T: State>(m: &mut HashMap<Rc<T>, usize, RandomState>, k: Rc<T>, v: usize)
    requires
        obeys_key_model::<T>(),
    ensures
        final(m)@ == old(m)@.insert(k, v),
{
    m.insert(k, v);
}

/// Relies on `Rc::clone`: the new handle points to the same value.
#[verifier::external_body]
pub(crate) fn share<T>(r: &Rc<T>) -> (s: Rc<T>)
    ensures
        s == *r,
{
    Rc::clone(r)
}

/// The visited ledger of one search: every recorded state, in the order it
/// was recorded, with the index of the state it was discovered from.
/// The root is entry 0 and has no parent; every other parent was recorded earlier.
pub(crate) struct Ledger<T: State> {
    pub(crate) states: Vec<Rc<T>>,
    pub(crate) parents: Vec<Option<usize>>,
    pub(crate) index: HashMap<Rc<T>, usize, RandomState>,
}

impl<T: State> Ledger<T> {
    pub(crate) open spec fn seq(&self) -> Seq<T> {
        values(self.states@)
    }

    pub(crate) open spec fn len(&self) -> nat {
        self.states@.len()
    }

    pub(crate) open spec fn parent(&self, i: int) -> int {
        self.parents@[i].unwrap() as int
    }

    /// The number of transitions from the root to entry `i` along parents.
    pub(crate) open spec fn depth(&self, i: int) -> nat
        decreases i,
    {
        if 0 < i < self.len() && self.parents@[i] is Some && self.parent(i) < i {
            self.depth(self.parent(i)) + 1
        } else {
            0
        }
    }

    pub(crate) open spec fn wf(&self) -> bool {
        &&& obeys_key_model::<T>()
        &&& self.states@.len() == self.parents@.len()
        &&& self.states@.len() >= 1
        &&& self.parents@[0] is None
        &&& forall|i: int|
            #![trigger self.parents@[i]]
            0 < i < self.len() ==> {
                &&& self.parents@[i] is Some
                &&& 0 <= self.parent(i) < i
                &&& step(self.seq()[self.parent(i)], self.seq()[i])
            }
        &&& self.seq().no_duplicates()
        &&& forall|i: int|
            #![trigger self.states@[i]]
            0 <= i < self.len() ==> self.index@.contains_key(self.states@[i])
                && self.index@[self.states@[i]] == i
        &&& forall|k: Rc<T>|
            #[trigger] self.index@.contains_key(k) ==> self.index@[k] < self.len()
                && self.states@[self.index@[k] as int] == k
    }

    /// A ledger that holds `start` alone, as the root.
    pub(crate) fn new(start: &Rc<T>) -> (r: Self)
        requires
            obeys_key_model::<T>(),
        ensures
            r.wf(),
            r.seq() == seq![**start],
    {
        let mut states: Vec<Rc<T>> = Vec::new();
        let mut parents: Vec<Option<usize>> = Vec::new();
        let mut index = empty_index::<T>();
        states.push(share(start));
        parents.push(None);
        index_insert(&mut index, share(start), 0);
        let r = Ledger { states, parents, index };
        assert(r.seq() =~= seq![**start]);
        r
    }

    /// Whether a state equal to `s` is recorded.
    pub(crate) fn contains(&self, s: &Rc<T>) -> (r: bool)
        requires
            self.wf(),
        ensures
            r == self.seq().contains(**s),
    {
        let found = index_get(&self.index, s);
        proof {
            let v = self.seq();
            let k: T = **s;
            if v.contains(k) {
                let i = choose|i: int| 0 <= i < self.len() && v[i] == k;
                assert(self.states@[i] == k);
            }
            if found is Some {
                let i = self.index@[*s] as int;
                assert(v[i] == k);
            }
        }
        found.is_some()
    }

    /// Records `s`, discovered from the entry `parent`; returns its index.
    pub(crate) fn record(&mut self, s: Rc<T>, parent: usize) -> (i: usize)
        requires
            old(self).wf(),
            !old(self).seq().contains(*s),
            parent < old(self).len(),
            step(old(self).seq()[parent as int], *s),
        ensures
            final(self).wf(),
            final(self).seq() == old(self).seq().push(*s),
            i == old(self).len(),
            final(self).parents@ == old(self).parents@.push(Some(parent)),
            final(self).depth(i as int) == old(self).depth(parent as int) + 1,
            forall|j: int|
                0 <= j < old(self).len() ==> #[trigger] final(self).depth(j) == old(self).depth(j),
    {
        let i = self.states.len();
        index_insert(&mut self.index, share(&s), i);
        self.states.push(s);
        self.parents.push(Some(parent));
        proof {
            let o = old(self);
            assert(self.seq() =~= o.seq().push(*s));
            assert forall|j: int| #![trigger self.parents@[j]] 0 < j < self.len() implies {
                &&& self.parents@[j] is Some
                &&& 0 <= self.parent(j) < j
                &&& step(self.seq()[self.parent(j)], self.seq()[j])
            } by {
                if j < i {
                    assert(o.parents@[j] == self.parents@[j]);
                }
            }
            assert forall|j: int| #![trigger self.states@[j]] 0 <= j < self.len() implies
                self.index@.contains_key(self.states@[j]) && self.index@[self.states@[j]] == j by {
                if j < i {
                    assert(o.states@[j] == self.states@[j]);
                    assert(o.seq()[j] == self.seq()[j]);
                }
            }
            assert forall|k: Rc<T>| #[trigger] self.index@.contains_key(k) implies self.index@[k]
                < self.len() && self.states@[self.index@[k] as int] == k by {
                if k != s {
                    assert(o.index@.contains_key(k));
                }
            }
            assert forall|j: int| 0 <= j < o.len() implies #[trigger] self.depth(j) == o.depth(j) by {
                lemma_depth_prefix(o, self, j);
            }
            lemma_depth_prefix(o, self, parent as int);
            assert(self.parents@[i as int] is Some);
        }
        i
    }

    /// The recorded states from the root to entry `idx`, following parents.
    pub(crate) fn path_to(&self, idx: usize) -> (r: Vec<Rc<T>>)
        requires
            self.wf(),
            idx < self.len(),
        ensures
            walk_between(values(r@), self.seq()[0], self.seq()[idx as int]),
            values(r@).no_duplicates(),
            r@.len() == self.depth(idx as int) + 1,
            values(r@) == back_chain(self.seq(), self.parents@, idx as int).reverse(),
    {
        // Walk back from `idx`; `ids` holds the ledger index of each entry of `back`.
        let mut back: Vec<Rc<T>> = Vec::new();
        let mut cur: usize = idx;
        back.push(share(&self.states[cur]));
        let ghost mut ids: Seq<int> = seq![idx as int];
        while self.parents[cur].is_some()
            invariant
                self.wf(),
                cur < self.len(),
                ids.len() == back@.len() >= 1,
                ids[0] == idx,
                ids.last() == cur,
                ids.len() - 1 + self.depth(cur as int) == self.depth(idx as int),
                back_chain(self.seq(), self.parents@, idx as int) == values(back@)
                    + back_chain(self.seq(), self.parents@, cur as int).drop_first(),
                forall|k: int| 0 <= k < ids.len() ==> 0 <= #[trigger] ids[k] < self.len(),
                forall|k: int|
                    #![trigger back@[k]]
                    0 <= k < ids.len() ==> values(back@)[k] == self.seq()[ids[k]],
                forall|k: int|
                    #![trigger ids[k]]
                    0 < k < ids.len() ==> ids[k] == self.parent(ids[k - 1]) && ids[k] < ids[k
                        - 1],
            decreases cur,
        {
            let p = self.parents[cur].unwrap();
            assert(self.parents@[cur as int] is Some);
            proof {
                ids = ids.push(p as int);
            }
            let ghost c0 = cur;
            let ghost b0 = values(back@);
            cur = p;
            back.push(share(&self.states[cur]));
            proof {
                let ch = |i: int| back_chain(self.seq(), self.parents@, i);
                assert(ch(c0 as int) == seq![self.seq()[c0 as int]] + ch(cur as int));
                assert(ch(c0 as int).drop_first() =~= ch(cur as int));
                assert(ch(cur as int)[0] == self.seq()[cur as int]);
                assert(values(back@) =~= b0.push(self.seq()[cur as int]));
                assert(b0 + ch(cur as int) =~= values(back@) + ch(cur as int).drop_first());
            }
        }
        assert(cur == 0) by {
            if cur > 0 {
                assert(self.parents@[cur as int] is Some);
            }
        }
        // Reverse into root-first order.
        let n = back.len();
        let mut r: Vec<Rc<T>> = Vec::new();
        let mut j: usize = n;
        while j > 0
            invariant
                j <= n == back@.len() == ids.len(),
                r@.len() == n - j,
                forall|k: int|
                    #![trigger r@[k]]
                    0 <= k < r@.len() ==> values(r@)[k] == values(back@)[n - 1 - k],
            decreases j,
        {
            j = j - 1;
            r.push(share(&back[j]));
        }
        proof {
            let v = values(r@);
            assert(back_chain(self.seq(), self.parents@, 0) == seq![self.seq()[0]]);
            assert(back_chain(self.seq(), self.parents@, idx as int) =~= values(back@));
            assert(v =~= values(back@).reverse());
            assert forall|k: int| #![trigger v[k]] 0 < k < v.len() implies step(v[k - 1], v[k]) by {
                let a = n - 1 - k;
                assert(v[k] == values(back@)[a]);
                assert(v[k - 1] == values(back@)[a + 1]);
                assert(ids[a + 1] == self.parent(ids[a]));
                assert(self.parents@[ids[a]] is Some);
            }
            assert(v[0] == values(back@)[n - 1]);
            assert(ids[n - 1] == 0);
            assert(v[n - 1] == values(back@)[0]);
            assert forall|a: int, b: int| 0 <= a < b < ids.len() implies ids[a] > ids[b] by {
                lemma_decreasing(ids, a, b);
            }
            assert forall|x: int, y: int| 0 <= x < v.len() && 0 <= y < v.len() && x != y implies v[x]
                != v[y] by {
                let a = n - 1 - x;
                let b = n - 1 - y;
                assert(v[x] == self.seq()[ids[a]]);
                assert(v[y] == self.seq()[ids[b]]);
                assert(ids[a] != ids[b]);
            }
        }
        r
    }
}

/// Depths agree between two ledgers whose parents agree up to entry `i`.
proof fn lemma_depth_prefix<T: State>(a: &Ledger<T>, b: &Ledger<T>, i: int)
    requires
        a.wf(),
        b.wf(),
        0 <= i < a.len() <= b.len(),
        forall|j: int| 0 <= j < a.len() ==> #[trigger] a.parents@[j] == b.parents@[j],
    ensures
        a.depth(i) == b.depth(i),
    decreases i,
{
    if i > 0 {
        assert(a.parents@[i] == b.parents@[i]);
        lemma_depth_prefix(a, b, a.parent(i));
    }
}

proof fn lemma_decreasing(ids: Seq<int>, a: int, b: int)
    requires
        0 <= a < b < ids.len(),
        forall|k: int| #![trigger ids[k]] 0 < k < ids.len() ==> ids[k] < ids[k - 1],
    ensures
        ids[a] > ids[b],
    decreases b - a,
{
    if b - a > 1 {
        lemma_decreasing(ids, a, b - 1);
    }
    assert(ids[b] < ids[b - 1]);
}

} // verus!
