//! A map keyed by vertex value, and the walk back through recorded predecessors.
use crate::graph::{eq_by_value, values, Vertex};
use std::rc::Rc;
use vstd::prelude::*;

verus! {

/// A map keyed by vertex value, held as two parallel vectors with distinct keys.
pub(crate) struct VertexMap<T, V> {
    keys: Vec<Rc<T>>,
    vals: Vec<V>,
}

impl<T: PartialEq, V> VertexMap<T, V> {
    pub(crate) closed spec fn wf(&self) -> bool {
        &&& self.keys@.len() == self.vals@.len()
        &&& forall|i: int, j: int|
            0 <= i < j < self.keys@.len() ==> *self.keys@[i] != *self.keys@[j]
    }

    spec fn has(&self, k: T) -> bool {
        exists|i: int| 0 <= i < self.keys@.len() && *self.keys@[i] == k
    }

    pub(crate) closed spec fn view(&self) -> Map<T, V> {
        Map::new(
            |k: T| self.has(k),
            |k: T| self.vals@[choose|i: int| 0 <= i < self.keys@.len() && *self.keys@[i] == k],
        )
    }

    proof fn lemma_at(&self, i: int)
        requires
            self.wf(),
            0 <= i < self.keys@.len(),
        ensures
            self.view().contains_key(*self.keys@[i]),
            self.view()[*self.keys@[i]] == self.vals@[i],
    {
        let k = *self.keys@[i];
        assert(self.has(k));
        let j = choose|j: int| 0 <= j < self.keys@.len() && *self.keys@[j] == k;
        assert(i == j);
    }

    proof fn lemma_len(&self)
        requires
            self.wf(),
        ensures
            self.view().dom().finite(),
            self.view().dom().len() == self.keys@.len(),
    {
        let ks = values(self.keys@);
        assert(self.view().dom() =~= ks.to_set()) by {
            assert forall|k: T| self.view().dom().contains(k) implies ks.to_set().contains(k) by {
                let i = choose|i: int| 0 <= i < self.keys@.len() && *self.keys@[i] == k;
                assert(ks[i] == k);
            }
            assert forall|k: T| ks.to_set().contains(k) implies self.view().dom().contains(k) by {
                let i = choose|i: int| 0 <= i < ks.len() && ks[i] == k;
                assert(*self.keys@[i] == k);
            }
        }
        assert(ks.no_duplicates());
        ks.unique_seq_to_set();
    }

    /// The number of keys.
    pub(crate) fn len(&self) -> (r: usize)
        requires
            self.wf(),
        ensures
            r == self.view().dom().len(),
    {
        proof {
            self.lemma_len();
        }
        self.keys.len()
    }

    pub(crate) fn new() -> (r: Self)
        ensures
            r.wf(),
            r.view() == Map::<T, V>::empty(),
    {
        let r = VertexMap { keys: Vec::new(), vals: Vec::new() };
        assert(r.view() =~= Map::<T, V>::empty());
        r
    }

    fn index_of(&self, k: &T) -> (r: Option<usize>)
        requires
            self.wf(),
            eq_by_value::<T>(),
        ensures
            match r {
                Some(i) => i < self.keys@.len() && *self.keys@[i as int] == *k,
                None => !self.view().contains_key(*k),
            },
    {
        let mut i: usize = 0;
        while i < self.keys.len()
            invariant
                i <= self.keys@.len(),
                eq_by_value::<T>(),
                forall|j: int| 0 <= j < i ==> *self.keys@[j] != *k,
            decreases self.keys@.len() - i,
        {
            if *self.keys[i] == *k {
                return Some(i);
            }
            i += 1;
        }
        None
    }

    pub(crate) fn contains_key(&self, k: &T) -> (r: bool)
        requires
            self.wf(),
            eq_by_value::<T>(),
        ensures
            r == self.view().contains_key(*k),
    {
        match self.index_of(k) {
            Some(i) => {
                proof {
                    self.lemma_at(i as int);
                }
                true
            },
            None => false,
        }
    }

    pub(crate) fn get(&self, k: &T) -> (r: Option<&V>)
        requires
            self.wf(),
            eq_by_value::<T>(),
        ensures
            match r {
                Some(v) => self.view().contains_key(*k) && *v == self.view()[*k],
                None => !self.view().contains_key(*k),
            },
    {
        match self.index_of(k) {
            Some(i) => {
                proof {
                    self.lemma_at(i as int);
                }
                Some(&self.vals[i])
            },
            None => None,
        }
    }

    pub(crate) fn insert(&mut self, k: Rc<T>, v: V)
        requires
            old(self).wf(),
            eq_by_value::<T>(),
        ensures
            final(self).wf(),
            final(self).view() == old(self).view().insert(*k, v),
    {
        let ghost idx: int;
        match self.index_of(&*k) {
            Some(i) => {
                self.vals.set(i, v);
                proof {
                    idx = i as int;
                }
            },
            None => {
                proof {
                    idx = self.keys@.len() as int;
                }
                self.keys.push(k);
                self.vals.push(v);
            },
        }
        assert(*self.keys@[idx] == *k);
        assert forall|key: T| #[trigger] self.view().contains_key(key) == old(self).view().insert(
            *k,
            v,
        ).contains_key(key) by {
            if old(self).has(key) {
                let j = choose|j: int| 0 <= j < old(self).keys@.len() && *old(self).keys@[j] == key;
                assert(*self.keys@[j] == key);
            }
            if key == *k {
                assert(self.has(*k));
            }
            if self.has(key) {
                let j = choose|j: int| 0 <= j < self.keys@.len() && *self.keys@[j] == key;
                if j < old(self).keys@.len() {
                    assert(old(self).has(key));
                }
            }
        }
        assert forall|key: T| #[trigger] self.view().contains_key(key) implies self.view()[key]
            == old(self).view().insert(*k, v)[key] by {
            let j = choose|j: int| 0 <= j < self.keys@.len() && *self.keys@[j] == key;
            self.lemma_at(j);
            if key != *k {
                assert(j < old(self).keys@.len());
                old(self).lemma_at(j);
            }
        }
        assert(self.view() =~= old(self).view().insert(*k, v));
    }
}

/// `p` runs from `p[0]` back through `came_from` to a vertex that has no entry there.
pub(crate) open spec fn traced<T>(p: Seq<T>, came_from: Map<T, Rc<T>>) -> bool {
    &&& p.len() >= 1
    &&& !came_from.contains_key(p.last())
    &&& forall|i: int|
        0 <= i < p.len() - 1 ==> came_from.contains_key(#[trigger] p[i]) && *came_from[p[i]] == p[i + 1]
}

/// Each recorded predecessor ranks strictly above its vertex, and no higher than `top`.
pub(crate) open spec fn ranked<T>(came_from: Map<T, Rc<T>>, rank: spec_fn(T) -> int, top: int) -> bool {
    forall|k: T| #[trigger]
        came_from.contains_key(k) ==> rank(k) < rank(*came_from[k]) <= top
}

/// Walks from `goal` back through `came_from` until a vertex without a predecessor.
pub(crate) fn reconstruct_path<T: Vertex>(
    goal: Rc<T>,
    came_from: &VertexMap<T, Rc<T>>,
    Ghost(rank): Ghost<spec_fn(T) -> int>,
    Ghost(top): Ghost<int>,
) -> (path: Vec<Rc<T>>)
    requires
        came_from.wf(),
        eq_by_value::<T>(),
        ranked(came_from.view(), rank, top),
        rank(*goal) <= top,
    ensures
        values(path@)[0] == *goal,
        traced(values(path@), came_from.view()),
        values(path@).no_duplicates(),
{
    let mut cur = goal.clone();
    let mut path = vec![goal];
    loop
        invariant
            came_from.wf(),
            eq_by_value::<T>(),
            ranked(came_from.view(), rank, top),
            rank(*cur) <= top,
            path@.len() >= 1,
            values(path@)[0] == *goal,
            values(path@).last() == *cur,
            forall|i: int|
                0 <= i < path@.len() - 1 ==> came_from.view().contains_key(
                    #[trigger] values(path@)[i],
                ) && *came_from.view()[values(path@)[i]] == values(path@)[i + 1],
            forall|i: int, j: int|
                0 <= i < j < path@.len() ==> rank(#[trigger] values(path@)[i]) < rank(
                    #[trigger] values(path@)[j],
                ),
        ensures
            !came_from.view().contains_key(*cur),
        decreases top - rank(*cur),
    {
        let prev = match came_from.get(&*cur) {
            Some(prev) => prev,
            None => break,
        };
        let ghost old_path = path@;
        path.push(prev.clone());
        proof {
            assert forall|i: int| 0 <= i < path@.len() - 1 implies came_from.view().contains_key(
                #[trigger] values(path@)[i],
            ) && *came_from.view()[values(path@)[i]] == values(path@)[i + 1] by {
                if i < old_path.len() - 1 {
                    assert(values(path@)[i] == values(old_path)[i]);
                    assert(values(path@)[i + 1] == values(old_path)[i + 1]);
                }
            }
            assert(rank(*cur) < rank(**prev));
            assert forall|i: int, j: int| 0 <= i < j < path@.len() implies rank(
                #[trigger] values(path@)[i],
            ) < rank(#[trigger] values(path@)[j]) by {
                assert(values(path@)[i] == values(old_path)[i]);
                if j < old_path.len() {
                    assert(values(path@)[j] == values(old_path)[j]);
                } else {
                    assert(values(path@)[j] == **prev);
                    if i < old_path.len() - 1 {
                        assert(rank(values(old_path)[i]) < rank(values(old_path)[old_path.len() - 1]));
                    }
                }
            }
        }
        cur = prev.clone();
    }
    assert forall|i: int, j: int| 0 <= i < path@.len() && 0 <= j < path@.len() && i != j implies values(
        path@,
    )[i] != values(path@)[j] by {
        if i < j {
            assert(rank(values(path@)[i]) < rank(values(path@)[j]));
        } else {
            assert(rank(values(path@)[j]) < rank(values(path@)[i]));
        }
    }
    path
}

} // verus!
