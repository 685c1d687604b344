//! Searches over vertices that generate their own neighbours on demand.
use std::rc::Rc;
use vstd::prelude::*;
use vstd::std_specs::cmp::PartialEqSpec;

use crate::vertex_map::{ranked, reconstruct_path, traced, VertexMap};
use crate::walks::{
    depth, ends, ends_within, goal_walks, height, leaf_walks, leaves, leaves_all, lemma_count_step,
    lemma_depth, lemma_depth_step, lemma_height, lemma_path_reaches, lemma_settles_mono,
    lemma_walks_concat, lemma_walks_front, lemma_walks_single, reaches, reaches_within, settles,
    settles_within, steps_to, walk_back, walks, walks_all, reachable, closed_beyond,
    lemma_reachable_step,
};

verus! {

/// A vertex of a graph that is generated lazily, one vertex at a time.
///
/// Two vertices that stand for the same node must compare equal; the searches key their
/// bookkeeping by value.
pub trait Vertex: Sized + PartialEq {
    /// The vertices next to this one, in the order that `neighbors` yields them.
    spec fn adjacent(&self) -> Seq<Self>;

    /// The estimated distance from this vertex to `other`; zero means that `other` is reached.
    spec fn estimate(&self, other: &Self) -> nat;

    fn neighbors(&self) -> (r: Vec<Rc<Self>>)
        ensures
            values(r@) == self.adjacent(),
    ;

    fn distance(&self, other: &Self) -> (r: usize)
        ensures
            r as nat == self.estimate(other),
    ;
}

/// `==` on `T` is equality of values.
pub open spec fn eq_by_value<T: PartialEq>() -> bool {
    &&& T::obeys_eq_spec()
    &&& forall|a: T, b: T| #[trigger] a.eq_spec(&b) <==> (a == b)
}

/// The vertex that a shared handle points to.
pub open spec fn peek<T>(r: &Rc<T>) -> T {
    **r
}

/// The vertices that a sequence of shared handles points to.
pub open spec fn values<T>(s: Seq<Rc<T>>) -> Seq<T> {
    s.map_values(|r: Rc<T>| *r)
}

/// Predecessors recorded by the breadth-first search: each is a vertex short of the goal whose
/// walks all end within `n` vertices, and leads back to `start`.
#[verifier::opaque]
spec fn sound_preds<T: Vertex>(p: Map<T, Rc<T>>, start: T, goal: T, n: nat) -> bool {
    &&& !p.contains_key(start)
    &&& forall|k: T| #[trigger]
        p.contains_key(k) ==> {
            &&& (*p[k]).estimate(&goal) != 0
            &&& (*p[k]).adjacent().contains(k)
            &&& settles_within(*p[k], goal, n)
            &&& (*p[k] == start || p.contains_key(*p[k]))
        }
}

proof fn lemma_sound_ranked<T: Vertex>(p: Map<T, Rc<T>>, start: T, goal: T, n: nat)
    requires
        sound_preds(p, start, goal, n),
    ensures
        ranked(p, |v: T| depth(v, goal) as int, n as int),
{
    reveal(sound_preds);
    assert forall|k: T| #[trigger] p.contains_key(k) implies depth(k, goal) < depth(*p[k], goal)
        <= n by {
        lemma_depth_step(*p[k], goal, n, k);
        lemma_depth(*p[k], goal, n);
    }
}

/// Each recorded predecessor is a vertex short of the goal that has its key as a neighbour,
/// and is `start` or has a predecessor of its own.
spec fn chain_preds<T: Vertex>(p: Map<T, Rc<T>>, start: T, goal: T) -> bool {
    &&& !p.contains_key(start)
    &&& forall|k: T| #[trigger]
        p.contains_key(k) ==> {
            &&& (*p[k]).estimate(&goal) != 0
            &&& (*p[k]).adjacent().contains(k)
            &&& (*p[k] == start || p.contains_key(*p[k]))
        }
}

proof fn lemma_traced_walk<T: Vertex>(q: Seq<T>, p: Map<T, Rc<T>>, start: T, goal: T)
    requires
        chain_preds(p, start, goal),
        traced(q, p),
        q[0] == start || p.contains_key(q[0]),
        q[0].estimate(&goal) == 0,
    ensures
        walk_back(q, start, goal),
{
    if q.len() > 1 {
        assert(p.contains_key(q[q.len() - 2]));
    }
    assert forall|i: int| 0 <= i < q.len() - 1 implies (#[trigger] q[i + 1]).estimate(&goal) != 0
        && q[i + 1].adjacent().contains(q[i]) by {
        assert(p.contains_key(q[i]));
    }
}

/// The path that the recorded predecessors give from `current`, a vertex at the goal.
fn path_to<T: Vertex>(
    current: Rc<T>,
    prev: &VertexMap<T, Rc<T>>,
    Ghost(sv): Ghost<T>,
    Ghost(gv): Ghost<T>,
    Ghost(n): Ghost<nat>,
) -> (path: Vec<Rc<T>>)
    requires
        eq_by_value::<T>(),
        prev.wf(),
        sound_preds(prev.view(), sv, gv, n),
        settles_within(*current, gv, n),
        (*current).estimate(&gv) == 0,
        *current == sv || prev.view().contains_key(*current),
    ensures
        walk_back(values(path@), sv, gv),
        values(path@).no_duplicates(),
{
    proof {
        lemma_sound_ranked(prev.view(), sv, gv, n);
        lemma_depth(peek(&current), gv, n);
    }
    let path = reconstruct_path(current, prev, Ghost(|v: T| depth(v, gv) as int), Ghost(n as int));
    proof {
        reveal(sound_preds);
        lemma_traced_walk(values(path@), prev.view(), sv, gv);
    }
    path
}

/// Records `current` as the predecessor of each of its neighbours and queues them, in order.
fn push_neighbors<T: Vertex>(
    current: &Rc<T>,
    prev: &mut VertexMap<T, Rc<T>>,
    next: &mut Vec<Rc<T>>,
    Ghost(sv): Ghost<T>,
    Ghost(gv): Ghost<T>,
    Ghost(n): Ghost<nat>,
    Ghost(m): Ghost<nat>,
)
    requires
        eq_by_value::<T>(),
        forall|k: nat| k < n ==> !settles_within(sv, gv, k),
        m < n,
        (**current).estimate(&gv) != 0,
        settles_within(**current, gv, m + 1),
        **current == sv || old(prev).view().contains_key(**current),
        old(prev).wf(),
        sound_preds(old(prev).view(), sv, gv, n),
        forall|k: int|
            0 <= k < old(next)@.len() ==> settles_within(#[trigger] values(old(next)@)[k], gv, m)
                && old(prev).view().contains_key(values(old(next)@)[k]),
    ensures
        final(prev).wf(),
        sound_preds(final(prev).view(), sv, gv, n),
        forall|k: T| old(prev).view().contains_key(k) ==> #[trigger] final(prev).view().contains_key(k),
        values(final(next)@) == values(old(next)@) + (**current).adjacent(),
        forall|k: int|
            0 <= k < final(next)@.len() ==> settles_within(#[trigger] values(final(next)@)[k], gv, m)
                && final(prev).view().contains_key(values(final(next)@)[k]),
{
    let ghost cur = peek(current);
    let ghost next0 = values(next@);
    proof {
        lemma_settles_mono(cur, gv, m + 1, n);
        reveal(sound_preds);
    }
    let neighbors = current.neighbors();
    let mut j: usize = 0;
    while j < neighbors.len()
        invariant
            eq_by_value::<T>(),
            forall|k: nat| k < n ==> !settles_within(sv, gv, k),
            m < n,
            j <= neighbors@.len(),
            values(neighbors@) == cur.adjacent(),
            cur == **current,
            cur.estimate(&gv) != 0,
            settles_within(cur, gv, m + 1),
            settles_within(cur, gv, n),
            cur == sv || prev.view().contains_key(cur),
            prev.wf(),
            sound_preds(prev.view(), sv, gv, n),
            forall|k: T| old(prev).view().contains_key(k) ==> #[trigger] prev.view().contains_key(k),
            values(next@) == next0 + cur.adjacent().subrange(0, j as int),
            forall|k: int|
                0 <= k < next@.len() ==> settles_within(#[trigger] values(next@)[k], gv, m)
                    && prev.view().contains_key(values(next@)[k]),
        decreases neighbors@.len() - j,
    {
        let nb = neighbors[j].clone();
        let ghost w = peek(&nb);
        assert(w == cur.adjacent()[j as int]);
        assert(cur.adjacent().contains(w));
        assert(settles_within(w, gv, m));
        proof {
            if w == sv {
                lemma_depth_step(cur, gv, n, w);
                lemma_depth(cur, gv, m + 1);
            }
        }
        prev.insert(nb.clone(), current.clone());
        proof {
            reveal(sound_preds);
        }
        let ghost next1 = next@;
        next.push(nb);
        assert(values(next@) =~= values(next1).push(w));
        assert(values(next@) =~= next0 + cur.adjacent().subrange(0, j + 1));
        assert forall|k: int| 0 <= k < next@.len() implies settles_within(
            #[trigger] values(next@)[k],
            gv,
            m,
        ) && prev.view().contains_key(values(next@)[k]) by {
            if k < next1.len() {
                assert(values(next@)[k] == values(next1)[k]);
            }
        }
        j += 1;
    }
    assert(cur.adjacent().subrange(0, j as int) =~= cur.adjacent());
}

/// Search for paths from `start` to `goal` using BFS traversing.
/// Return list of all found paths
#[verifier::rlimit(100)]
pub fn bfs_search_all<T: Vertex>(start: Rc<T>, goal: Rc<T>) -> (paths: Vec<Vec<Rc<T>>>)
    requires
        eq_by_value::<T>(),
        settles(*start, *goal),
    ensures
        paths@.len() == goal_walks(*start, *goal),
        forall|i: int| 0 <= i < paths@.len() ==> walk_back(values(#[trigger] paths@[i]@), *start, *goal),
        forall|i: int| 0 <= i < paths@.len() ==> values(#[trigger] paths@[i]@).no_duplicates(),
{
    let ghost sv = peek(&start);
    let ghost gv = peek(&goal);
    let ghost n = depth(sv, gv);
    proof {
        let k = choose|k: nat| settles_within(sv, gv, k);
        lemma_depth(sv, gv, k);
        lemma_walks_single(sv, gv, n);
    }
    let mut prev: VertexMap<T, Rc<T>> = VertexMap::new();
    let mut paths: Vec<Vec<Rc<T>>> = Vec::new();
    let mut level: Vec<Rc<T>> = vec![start.clone()];
    let ghost mut d: nat = 0;
    proof {
        reveal(sound_preds);
    }
    assert(values(level@) =~= seq![sv]);
    while level.len() > 0
        invariant
            eq_by_value::<T>(),
            n == depth(sv, gv),
            sv == *start,
            gv == *goal,
            forall|m: nat| m < n ==> !settles_within(sv, gv, m),
            d <= n,
            prev.wf(),
            sound_preds(prev.view(), sv, gv, n),
            forall|j: int|
                0 <= j < level@.len() ==> settles_within(
                    #[trigger] values(level@)[j],
                    gv,
                    (n - d) as nat,
                ) && (values(level@)[j] == sv || prev.view().contains_key(values(level@)[j])),
            forall|i: int|
                0 <= i < paths@.len() ==> walk_back(values(#[trigger] paths@[i]@), sv, gv),
            forall|i: int| 0 <= i < paths@.len() ==> values(#[trigger] paths@[i]@).no_duplicates(),
            paths@.len() + walks_all(values(level@), gv, (n - d) as nat) == walks(
                sv,
                gv,
                n,
            ),
        decreases n - d,
    {
        assert(settles_within(values(level@)[0], gv, (n - d) as nat));
        let ghost m: nat = (n - d - 1) as nat;
        let mut next: Vec<Rc<T>> = Vec::new();
        assert(values(next@) =~= Seq::<T>::empty());
        assert(values(level@).subrange(0, level@.len() as int) =~= values(level@));
        assert(walks_all(values(next@), gv, m) == 0);
        let mut i: usize = 0;
        while i < level.len()
            invariant
                eq_by_value::<T>(),
                n == depth(sv, gv),
                sv == *start,
                gv == *goal,
                forall|m: nat| m < n ==> !settles_within(sv, gv, m),
                d < n,
                m == n - d - 1,
                i <= level@.len(),
                prev.wf(),
                sound_preds(prev.view(), sv, gv, n),
                forall|j: int|
                    0 <= j < level@.len() ==> settles_within(
                        #[trigger] values(level@)[j],
                        gv,
                        (n - d) as nat,
                    ) && (values(level@)[j] == sv || prev.view().contains_key(
                        values(level@)[j],
                    )),
                forall|j: int|
                    0 <= j < next@.len() ==> settles_within(#[trigger] values(next@)[j], gv, m)
                        && prev.view().contains_key(values(next@)[j]),
                forall|i: int|
                    0 <= i < paths@.len() ==> walk_back(
                        values(#[trigger] paths@[i]@),
                        sv,
                        gv,
                    ),
                forall|i: int| 0 <= i < paths@.len() ==> values(#[trigger] paths@[i]@).no_duplicates(),
                paths@.len() + walks_all(values(next@), gv, m) + walks_all(
                    values(level@).subrange(i as int, level@.len() as int),
                    gv,
                    (n - d) as nat,
                ) == walks(sv, gv, n),
            decreases level@.len() - i,
        {
            let current = level[i].clone();
            let ghost cur = peek(&current);
            assert(cur == values(level@)[i as int]);
            proof {
                lemma_walks_front(values(level@), i as int, gv, (n - d) as nat);
                lemma_settles_mono(cur, gv, (n - d) as nat, n);
            }
            let dist = current.distance(&*goal);
            if dist == 0 {
                /* Found path */
                assert(walks(cur, gv, (n - d) as nat) == 1);
                let path = path_to(current, &prev, Ghost(sv), Ghost(gv), Ghost(n));
                let ghost old_paths = paths@;
                paths.push(path);
                assert forall|k: int| 0 <= k < paths@.len() implies walk_back(
                    values(#[trigger] paths@[k]@),
                    sv,
                    gv,
                ) && values(paths@[k]@).no_duplicates() by {
                    if k < old_paths.len() {
                        assert(paths@[k] == old_paths[k]);
                    }
                }
            } else {
                let ghost next0 = values(next@);
                let ghost prev0 = prev.view();
                push_neighbors(&current, &mut prev, &mut next, Ghost(sv), Ghost(gv), Ghost(n), Ghost(m));
                assert(walks(cur, gv, (n - d) as nat) == walks_all(cur.adjacent(), gv, m));
                proof {
                    lemma_walks_concat(next0, cur.adjacent(), gv, m);
                    assert forall|j: int| 0 <= j < level@.len() implies (values(level@)[j] == sv
                        || prev.view().contains_key(#[trigger] values(level@)[j])) by {
                        if values(level@)[j] != sv {
                            assert(prev0.contains_key(values(level@)[j]));
                        }
                    }
                }
            }
            i += 1;
        }
        assert(values(level@).subrange(i as int, level@.len() as int) =~= Seq::<T>::empty());
        level = next;
        proof {
            d = d + 1;
        }
    }
    paths
}

/// Each count in `memo` is the number of walks from its vertex to a vertex without neighbours.
spec fn memo_sound<T: Vertex>(memo: Map<T, usize>) -> bool {
    forall|k: T| #[trigger] memo.contains_key(k) ==> memo[k] == leaf_walks(k)
}

/// What counting the first `i` neighbours of `v` did to the memo `o`, giving `now`: old keys
/// stay, new keys are reached from `v`, each new key has all its neighbours as keys, and so
/// have those `i` neighbours.
#[verifier::opaque]
spec fn memo_grown<T: Vertex>(v: T, i: int, o: Map<T, usize>, now: Map<T, usize>) -> bool {
    &&& forall|k: T| o.contains_key(k) ==> #[trigger] now.contains_key(k)
    &&& forall|k: T| #[trigger] now.contains_key(k) ==> o.contains_key(k) || reachable(v, k)
    &&& closed_beyond(now, o)
    &&& forall|j: int| 0 <= j < i ==> now.contains_key(#[trigger] v.adjacent()[j])
}

proof fn lemma_memo_start<T: Vertex>(v: T, o: Map<T, usize>)
    ensures
        memo_grown(v, 0, o, o),
{
    reveal(memo_grown);
    reveal(closed_beyond);
}

/// The memo after counting the neighbour `i` of `v` as well.
proof fn lemma_memo_step<T: Vertex>(
    v: T,
    i: int,
    o: Map<T, usize>,
    before: Map<T, usize>,
    after: Map<T, usize>,
)
    requires
        0 <= i < v.adjacent().len(),
        memo_grown(v, i, o, before),
        forall|k: T| before.contains_key(k) ==> #[trigger] after.contains_key(k),
        forall|k: T| #[trigger]
            after.contains_key(k) ==> before.contains_key(k) || reachable(v.adjacent()[i], k),
        closed_beyond(after, before),
        after.contains_key(v.adjacent()[i]),
    ensures
        memo_grown(v, i + 1, o, after),
{
    reveal(memo_grown);
    reveal(closed_beyond);
    assert forall|k: T| #[trigger] after.contains_key(k) implies o.contains_key(k) || reachable(v, k) by {
        if !before.contains_key(k) {
            lemma_reachable_step(v, i, k);
        }
    }
    assert forall|k: T, j: int|
        #![trigger after.contains_key(k), k.adjacent()[j]]
        after.contains_key(k) && !o.contains_key(k) && 0 <= j < k.adjacent().len() implies after.contains_key(
        k.adjacent()[j],
    ) by {
        if before.contains_key(k) {
            assert(before.contains_key(k.adjacent()[j]));
        }
    }
}

/// Entering `v` after all its neighbours.
proof fn lemma_memo_finish<T: Vertex>(v: T, o: Map<T, usize>, before: Map<T, usize>, c: usize)
    requires
        memo_grown(v, v.adjacent().len() as int, o, before),
    ensures
        forall|k: T| o.contains_key(k) ==> #[trigger] before.insert(v, c).contains_key(k),
        forall|k: T| #[trigger]
            before.insert(v, c).contains_key(k) ==> o.contains_key(k) || reachable(v, k),
        closed_beyond(before.insert(v, c), o),
{
    reveal(memo_grown);
    reveal(closed_beyond);
    let after = before.insert(v, c);
    assert(steps_to(v, v, 0));
    assert forall|k: T, j: int|
        #![trigger after.contains_key(k), k.adjacent()[j]]
        after.contains_key(k) && !o.contains_key(k) && 0 <= j < k.adjacent().len() implies after.contains_key(
        k.adjacent()[j],
    ) by {
        if k != v {
            assert(before.contains_key(k.adjacent()[j]));
        } else {
            assert(before.contains_key(v.adjacent()[j]));
        }
    }
}

proof fn lemma_memo_same<T: Vertex>(o: Map<T, usize>)
    ensures
        closed_beyond(o, o),
{
    reveal(closed_beyond);
}

/// Counts the walks from `node` that end at a vertex without neighbours.
pub fn count_paths<T: Vertex>(node: Rc<T>) -> (r: usize)
    requires
        eq_by_value::<T>(),
        ends(*node),
        leaf_walks(*node) <= usize::MAX,
    ensures
        r == leaf_walks(*node),
{
    let mut memo = VertexMap::new();
    count_paths_internal(&mut memo, node)
}

#[verifier::rlimit(60)]
fn count_paths_internal<T: Vertex>(nodes: &mut VertexMap<T, usize>, node: Rc<T>) -> (r: usize)
    requires
        eq_by_value::<T>(),
        old(nodes).wf(),
        memo_sound(old(nodes).view()),
        ends(*node),
        leaf_walks(*node) <= usize::MAX,
    ensures
        final(nodes).wf(),
        memo_sound(final(nodes).view()),
        r == leaf_walks(*node),
        final(nodes).view().contains_key(*node),
        forall|k: T| old(nodes).view().contains_key(k) ==> #[trigger] final(nodes).view().contains_key(k),
        old(nodes).view().contains_key(*node) ==> final(nodes).view() == old(nodes).view(),
        forall|k: T| #[trigger]
            final(nodes).view().contains_key(k) ==> old(nodes).view().contains_key(k) || reachable(
                *node,
                k,
            ),
        closed_beyond(final(nodes).view(), old(nodes).view()),
    decreases height(*node),
{
    match nodes.get(&*node) {
        Some(c) => {
            proof {
                lemma_memo_same(nodes.view());
            }
            *c
        },
        None => {
            let ghost v = peek(&node);
            let ghost h = height(v);
            proof {
                let k = choose|k: nat| ends_within(v, k);
                lemma_height(v, k);
                lemma_memo_start(v, nodes.view());
            }
            let neighbors = node.neighbors();
            let mut paths: usize = 0;
            if neighbors.len() > 0 {
                let mut i: usize = 0;
                while i < neighbors.len()
                    invariant
                        eq_by_value::<T>(),
                        v == *node,
                        h == height(v),
                        ends_within(v, h),
                        ends(v),
                        leaf_walks(v) <= usize::MAX,
                        values(neighbors@) == v.adjacent(),
                        v.adjacent().len() > 0,
                        i <= neighbors@.len(),
                        nodes.wf(),
                        memo_sound(nodes.view()),
                        !old(nodes).view().contains_key(v),
                        memo_grown(v, i as int, old(nodes).view(), nodes.view()),
                        paths == leaves_all(v.adjacent().subrange(0, i as int), (h - 1) as nat),
                    decreases neighbors@.len() - i,
                {
                    let n = neighbors[i].clone();
                    proof {
                        lemma_count_step(v, i as int);
                        assert(peek(&n) == v.adjacent()[i as int]);
                    }
                    let ghost before = nodes.view();
                    let c = count_paths_internal(nodes, n);
                    proof {
                        lemma_memo_step(v, i as int, old(nodes).view(), before, nodes.view());
                    }
                    paths = paths + c;
                    i += 1;
                }
                assert(v.adjacent().subrange(0, i as int) =~= v.adjacent());
            } else {
                paths = 1;
            }
            let ghost before = nodes.view();
            nodes.insert(node.clone(), paths);
            proof {
                lemma_memo_finish(v, old(nodes).view(), before, paths);
            }
            paths
        },
    }
}

/// A vertex in the A* frontier, with its score; the lowest score leaves first.
struct ScoredVertex<T> {
    score: usize,
    vertex: Rc<T>,
}

impl<T: Vertex> ScoredVertex<T> {
    fn new(vertex: Rc<T>, score: usize) -> (r: ScoredVertex<T>)
        ensures
            r.vertex == vertex,
            r.score == score,
    {
        ScoredVertex { vertex: vertex, score: score }
    }

    /// `self` leaves the frontier before `other`.
    fn precedes(&self, other: &Self) -> (r: bool)
        ensures
            r == (self.score < other.score),
    {
        self.score < other.score
    }
}

/// The position of the first entry with the lowest score.
fn lowest<T: Vertex>(open: &Vec<ScoredVertex<T>>) -> (r: usize)
    requires
        open@.len() > 0,
    ensures
        r < open@.len(),
        forall|j: int| 0 <= j < open@.len() ==> open@[r as int].score <= #[trigger] open@[j].score,
{
    let mut best: usize = 0;
    let mut i: usize = 1;
    while i < open.len()
        invariant
            0 <= best < i <= open@.len(),
            forall|j: int| 0 <= j < i ==> open@[best as int].score <= #[trigger] open@[j].score,
        decreases open@.len() - i,
    {
        if open[i].precedes(&open[best]) {
            best = i;
        }
        i += 1;
    }
    best
}

/// `u` is a finite set of vertices that holds `start` and every neighbour of its members.
pub open spec fn search_space<T: Vertex>(u: Set<T>, start: T) -> bool {
    &&& u.finite()
    &&& u.contains(start)
    &&& forall|v: T, i: int|
        u.contains(v) && 0 <= i < v.adjacent().len() ==> u.contains(#[trigger] v.adjacent()[i])
}

spec fn in_open<T>(open: Seq<ScoredVertex<T>>, x: T) -> bool {
    exists|j: int| 0 <= j < open.len() && *open[j].vertex == x
}

/// The bookkeeping of A*: the frontier `open`, the closed set `c`, predecessors `p` and path
/// costs `g`. The neighbours of closed vertex `x` from position `j` on are exempt.
#[verifier::opaque]
spec fn astar_state<T: Vertex>(
    u: Set<T>,
    sv: T,
    gv: T,
    open: Seq<ScoredVertex<T>>,
    c: Map<T, ()>,
    p: Map<T, Rc<T>>,
    g: Map<T, usize>,
    x: T,
    j: int,
) -> bool {
    &&& c.dom().subset_of(u)
    &&& forall|k: int|
        #![trigger open[k]]
        0 <= k < open.len() ==> {
            &&& u.contains(*open[k].vertex)
            &&& g.contains_key(*open[k].vertex)
            &&& g[*open[k].vertex] <= c.dom().len()
            &&& (*open[k].vertex == sv || p.contains_key(*open[k].vertex))
        }
    &&& forall|y: T| #[trigger]
        c.contains_key(y) ==> {
            &&& y.estimate(&gv) != 0
            &&& (y == sv || p.contains_key(y))
            &&& g.contains_key(y)
        }
    &&& forall|y: T, i: int|
        c.contains_key(y) && 0 <= i < y.adjacent().len() && !(y == x && i >= j) ==> c.contains_key(
            #[trigger] y.adjacent()[i],
        ) || in_open(open, y.adjacent()[i])
    &&& c.contains_key(sv) || in_open(open, sv)
    &&& !c.contains_key(sv) ==> (p.dom().len() == 0 && forall|k: int|
        0 <= k < open.len() ==> *(#[trigger] open[k]).vertex == sv)
    &&& !p.contains_key(sv)
    &&& forall|k: T| #[trigger] g.contains_key(k) ==> (k == sv || p.contains_key(k))
    &&& forall|k: T| #[trigger]
        p.contains_key(k) ==> {
            &&& c.contains_key(*p[k])
            &&& (*p[k]).adjacent().contains(k)
            &&& g.contains_key(k)
            &&& g.contains_key(*p[k])
            &&& g[*p[k]] < g[k]
        }
}

proof fn lemma_astar_chain<T: Vertex>(
    u: Set<T>,
    sv: T,
    gv: T,
    open: Seq<ScoredVertex<T>>,
    c: Map<T, ()>,
    p: Map<T, Rc<T>>,
    g: Map<T, usize>,
)
    requires
        astar_state(u, sv, gv, open, c, p, g, sv, sv.adjacent().len() as int),
    ensures
        chain_preds(p, sv, gv),
        ranked(p, |y: T| -(g[y] as int), 0),
{
    reveal(astar_state);
}

proof fn lemma_no_reach<T: Vertex>(c: Map<T, ()>, v: T, gv: T, n: nat)
    requires
        c.contains_key(v),
        forall|y: T, i: int|
            c.contains_key(y) && 0 <= i < y.adjacent().len() ==> c.contains_key(
                #[trigger] y.adjacent()[i],
            ),
        forall|y: T| #[trigger] c.contains_key(y) ==> y.estimate(&gv) != 0,
    ensures
        !reaches_within(v, gv, n),
    decreases n,
{
    if n > 0 {
        assert forall|i: int| 0 <= i < v.adjacent().len() implies !reaches_within(
            #[trigger] v.adjacent()[i],
            gv,
            (n - 1) as nat,
        ) by {
            lemma_no_reach(c, v.adjacent()[i], gv, (n - 1) as nat);
        }
    }
}

/// With the frontier empty, the closed set holds `sv` and all that it reaches, and no goal.
proof fn lemma_exhausted<T: Vertex>(
    u: Set<T>,
    sv: T,
    gv: T,
    c: Map<T, ()>,
    p: Map<T, Rc<T>>,
    g: Map<T, usize>,
)
    requires
        astar_state(u, sv, gv, Seq::empty(), c, p, g, sv, sv.adjacent().len() as int),
    ensures
        !reaches(sv, gv),
{
    reveal(astar_state);
    assert forall|y: T, i: int|
        c.contains_key(y) && 0 <= i < y.adjacent().len() implies c.contains_key(
        #[trigger] y.adjacent()[i],
    ) by {
        assert(!in_open(Seq::<ScoredVertex<T>>::empty(), y.adjacent()[i]));
    }
    assert(!in_open(Seq::<ScoredVertex<T>>::empty(), sv));
    assert forall|n: nat| !reaches_within(sv, gv, n) by {
        lemma_no_reach(c, sv, gv, n);
    }
}

/// Dropping an entry whose vertex is already closed.
proof fn lemma_stale<T: Vertex>(
    u: Set<T>,
    sv: T,
    gv: T,
    open: Seq<ScoredVertex<T>>,
    idx: int,
    c: Map<T, ()>,
    p: Map<T, Rc<T>>,
    g: Map<T, usize>,
)
    requires
        astar_state(u, sv, gv, open, c, p, g, sv, sv.adjacent().len() as int),
        0 <= idx < open.len(),
        c.contains_key(*open[idx].vertex),
    ensures
        astar_state(u, sv, gv, open.remove(idx), c, p, g, sv, sv.adjacent().len() as int),
{
    reveal(astar_state);
    let o2 = open.remove(idx);
    assert forall|x: T| in_open(open, x) && !c.contains_key(x) implies in_open(o2, x) by {
        let k = choose|k: int| 0 <= k < open.len() && *open[k].vertex == x;
        if k < idx {
            assert(o2[k] == open[k]);
        } else {
            assert(k > idx);
            assert(o2[k - 1] == open[k]);
        }
    }
    assert forall|k: int| 0 <= k < o2.len() implies #[trigger] o2[k] == open[if k < idx {
        k
    } else {
        k + 1
    }] by {}
}

/// Closing the vertex of entry `idx`, whose neighbours are then still to be relaxed.
proof fn lemma_close<T: Vertex>(
    u: Set<T>,
    sv: T,
    gv: T,
    open: Seq<ScoredVertex<T>>,
    idx: int,
    c: Map<T, ()>,
    p: Map<T, Rc<T>>,
    g: Map<T, usize>,
)
    requires
        astar_state(u, sv, gv, open, c, p, g, sv, sv.adjacent().len() as int),
        0 <= idx < open.len(),
        !c.contains_key(*open[idx].vertex),
        (*open[idx].vertex).estimate(&gv) != 0,
        u.finite(),
    ensures
        astar_state(u, sv, gv, open.remove(idx), c.insert(*open[idx].vertex, ()), p, g, *open[idx].vertex, 0),
        c.insert(*open[idx].vertex, ()).contains_key(sv),
        g.contains_key(*open[idx].vertex),
        g[*open[idx].vertex] + 1 <= c.insert(*open[idx].vertex, ()).dom().len(),
        u.contains(*open[idx].vertex),
        c.insert(*open[idx].vertex, ()).dom().len() <= u.len(),
{
    reveal(astar_state);
    let x = *open[idx].vertex;
    let o2 = open.remove(idx);
    let c2 = c.insert(x, ());
    vstd::set_lib::lemma_len_subset(c.dom(), u);
    assert(c2.dom() =~= c.dom().insert(x));
    assert(c2.dom().len() == c.dom().len() + 1);
    vstd::set_lib::lemma_len_subset(c2.dom(), u);
    assert forall|k: int| 0 <= k < o2.len() implies #[trigger] o2[k] == open[if k < idx {
        k
    } else {
        k + 1
    }] by {}
    assert forall|y: T| in_open(open, y) && y != x implies in_open(o2, y) by {
        let k = choose|k: int| 0 <= k < open.len() && *open[k].vertex == y;
        if k < idx {
            assert(o2[k] == open[k]);
        } else {
            assert(o2[k - 1] == open[k]);
        }
    }
    if !c.contains_key(sv) {
        assert(*open[idx].vertex == sv);
    }
    assert forall|y: T, i: int|
        c2.contains_key(y) && 0 <= i < y.adjacent().len() && !(y == x && i >= 0) implies c2.contains_key(
        #[trigger] y.adjacent()[i],
    ) || in_open(o2, y.adjacent()[i]) by {
        assert(c.contains_key(y));
    }
}

/// Relaxing neighbour `j` of the closed vertex `x`, reached at cost `t` with score `f`.
proof fn lemma_relax<T: Vertex>(
    u: Set<T>,
    sv: T,
    gv: T,
    open: Seq<ScoredVertex<T>>,
    c: Map<T, ()>,
    p: Map<T, Rc<T>>,
    g: Map<T, usize>,
    x: T,
    j: int,
    e: ScoredVertex<T>,
    xr: Rc<T>,
    t: usize,
    better: bool,
)
    requires
        astar_state(u, sv, gv, open, c, p, g, x, j),
        c.contains_key(x),
        c.contains_key(sv),
        *xr == x,
        0 <= j < x.adjacent().len(),
        *e.vertex == x.adjacent()[j],
        !c.contains_key(*e.vertex),
        u.contains(*e.vertex),
        g.contains_key(x),
        t == g[x] + 1,
        t <= c.dom().len(),
        better == (!g.contains_key(*e.vertex) || t < g[*e.vertex]),
    ensures
        astar_state(
            u,
            sv,
            gv,
            open.push(e),
            c,
            if better { p.insert(*e.vertex, xr) } else { p },
            if better { g.insert(*e.vertex, t) } else { g },
            x,
            j + 1,
        ),
{
    reveal(astar_state);
    let w = *e.vertex;
    let o2 = open.push(e);
    assert(o2[o2.len() - 1] == e);
    assert(in_open(o2, w));
    assert forall|y: T| in_open(open, y) implies in_open(o2, y) by {
        let k = choose|k: int| 0 <= k < open.len() && *open[k].vertex == y;
        assert(o2[k] == open[k]);
    }
    assert forall|k: int| 0 <= k < open.len() implies #[trigger] o2[k] == open[k] by {}
    assert(x.adjacent().contains(w));
    if better {
        let p2 = p.insert(w, xr);
        let g2 = g.insert(w, t);
        assert(w != sv);
        assert forall|k: T| #[trigger] p2.contains_key(k) implies {
            &&& c.contains_key(*p2[k])
            &&& (*p2[k]).adjacent().contains(k)
            &&& g2.contains_key(k)
            &&& g2.contains_key(*p2[k])
            &&& g2[*p2[k]] < g2[k]
        } by {
            if k != w {
                assert(p.contains_key(k));
                assert(*p[k] != w);
            }
        }
    }
}

/// With every neighbour of `x` relaxed, no vertex is exempt.
proof fn lemma_relaxed<T: Vertex>(
    u: Set<T>,
    sv: T,
    gv: T,
    open: Seq<ScoredVertex<T>>,
    c: Map<T, ()>,
    p: Map<T, Rc<T>>,
    g: Map<T, usize>,
    x: T,
)
    requires
        astar_state(u, sv, gv, open, c, p, g, x, x.adjacent().len() as int),
    ensures
        astar_state(u, sv, gv, open, c, p, g, sv, sv.adjacent().len() as int),
{
    reveal(astar_state);
}

/// Pushes an entry for each neighbour of the closed vertex `x` that is not closed, and records
/// `x` as its predecessor where that shortens its path.
fn relax_neighbors<T: Vertex>(
    x: &Rc<T>,
    goal: &Rc<T>,
    closed: &VertexMap<T, ()>,
    open: &mut Vec<ScoredVertex<T>>,
    came_from: &mut VertexMap<T, Rc<T>>,
    g_score: &mut VertexMap<T, usize>,
    Ghost(u): Ghost<Set<T>>,
    Ghost(sv): Ghost<T>,
)
    requires
        eq_by_value::<T>(),
        search_space(u, sv),
        closed.wf(),
        old(came_from).wf(),
        old(g_score).wf(),
        astar_state(
            u,
            sv,
            **goal,
            old(open)@,
            closed.view(),
            old(came_from).view(),
            old(g_score).view(),
            **x,
            0,
        ),
        closed.view().contains_key(**x),
        closed.view().contains_key(sv),
        old(g_score).view().contains_key(**x),
        old(g_score).view()[**x] + 1 <= closed.view().dom().len(),
        closed.view().dom().len() <= usize::MAX,
        u.contains(**x),
    ensures
        final(came_from).wf(),
        final(g_score).wf(),
        astar_state(
            u,
            sv,
            **goal,
            final(open)@,
            closed.view(),
            final(came_from).view(),
            final(g_score).view(),
            sv,
            sv.adjacent().len() as int,
        ),
{
    let ghost xv = peek(x);
    let ghost gv = peek(goal);
    let gx: usize = match g_score.get(&**x) {
        Some(v) => *v,
        None => 0,
    };
    let neighbors = x.neighbors();
    let mut j: usize = 0;
    while j < neighbors.len()
        invariant
            eq_by_value::<T>(),
            xv == **x,
            gv == **goal,
            search_space(u, sv),
            closed.wf(),
            came_from.wf(),
            g_score.wf(),
            values(neighbors@) == xv.adjacent(),
            j <= neighbors@.len(),
            astar_state(u, sv, gv, open@, closed.view(), came_from.view(), g_score.view(), xv, j as int),
            closed.view().contains_key(xv),
            closed.view().contains_key(sv),
            g_score.view().contains_key(xv),
            g_score.view()[xv] == gx,
            gx + 1 <= closed.view().dom().len(),
            closed.view().dom().len() <= usize::MAX,
            u.contains(xv),
        decreases neighbors@.len() - j,
    {
        let neighbor = neighbors[j].clone();
        let ghost w = peek(&neighbor);
        assert(w == xv.adjacent()[j as int]);
        if closed.contains_key(&*neighbor) {
            proof {
                reveal(astar_state);
            }
        } else {
            assert(u.contains(w));
            let tentative_gscore = gx + 1;
            let tentative_fscore = tentative_gscore.saturating_add(neighbor.distance(&**goal));
            let entry = ScoredVertex::new(neighbor.clone(), tentative_fscore);
            let better = match g_score.get(&*neighbor) {
                Some(known) => tentative_gscore < *known,
                None => true,
            };
            proof {
                lemma_relax(
                    u,
                    sv,
                    gv,
                    open@,
                    closed.view(),
                    came_from.view(),
                    g_score.view(),
                    xv,
                    j as int,
                    entry,
                    *x,
                    tentative_gscore,
                    better,
                );
            }
            open.push(entry);
            if better {
                g_score.insert(neighbor.clone(), tentative_gscore);
                came_from.insert(neighbor.clone(), x.clone());
            }
        }
        j += 1;
    }
    proof {
        lemma_relaxed(u, sv, gv, open@, closed.view(), came_from.view(), g_score.view(), xv);
    }
}

/// Search for the shortest path between two Vertices.
/// Uses `Rc`, as it is otherwise hard to know size of
/// objects at compile time.
///
/// The vertices reachable from `start` must lie in a finite set: that bounds the closed set,
/// which is what makes the search end. The whole `i32` grid is such a set
/// (`lemma_grid_search_space`). The contract promises a simple walk whenever the goal is
/// reachable; that the walk is a shortest one under a consistent estimate is not stated.
pub fn astar_search<T: Vertex>(start: Rc<T>, goal: Rc<T>) -> (r: Option<Vec<Rc<T>>>)
    requires
        eq_by_value::<T>(),
        exists|u: Set<T>| search_space(u, *start),
    ensures
        r is Some <==> reaches(*start, *goal),
        r matches Some(p) ==> walk_back(values(p@), *start, *goal),
        r matches Some(p) ==> values(p@).no_duplicates(),
{
    let ghost sv = peek(&start);
    let ghost gv = peek(&goal);
    let ghost u = choose|u: Set<T>| search_space(u, sv);
    let mut open: Vec<ScoredVertex<T>> = Vec::new();
    let mut closed: VertexMap<T, ()> = VertexMap::new();
    let mut came_from: VertexMap<T, Rc<T>> = VertexMap::new();
    /* g_score, cost of getting from start to that node */
    let mut g_score: VertexMap<T, usize> = VertexMap::new();
    open.push(ScoredVertex::new(start.clone(), usize::MAX));
    g_score.insert(start.clone(), 0);
    proof {
        reveal(astar_state);
        assert(*open@[0].vertex == sv);
        assert(in_open(open@, sv));
        assert(closed.view().dom() =~= Set::<T>::empty());
    }
    while open.len() > 0
        invariant
            eq_by_value::<T>(),
            sv == *start,
            gv == *goal,
            search_space(u, sv),
            closed.wf(),
            came_from.wf(),
            g_score.wf(),
            astar_state(
                u,
                sv,
                gv,
                open@,
                closed.view(),
                came_from.view(),
                g_score.view(),
                sv,
                sv.adjacent().len() as int,
            ),
        decreases u.len() - closed.view().dom().len(), open@.len(),
    {
        proof {
            reveal(astar_state);
            vstd::set_lib::lemma_len_subset(closed.view().dom(), u);
        }
        let ghost open0 = open@;
        let idx = lowest(&open);
        let current = open.remove(idx);
        let ghost x = peek(&current.vertex);
        assert(x == *open0[idx as int].vertex);
        if current.vertex.distance(&*goal) == 0 {
            // Path found, reconstruct path
            proof {
                lemma_astar_chain(u, sv, gv, open0, closed.view(), came_from.view(), g_score.view());
                reveal(astar_state);
            }
            let path = reconstruct_path(
                current.vertex,
                &came_from,
                Ghost(|y: T| -(g_score.view()[y] as int)),
                Ghost(0),
            );
            proof {
                lemma_traced_walk(values(path@), came_from.view(), sv, gv);
                lemma_path_reaches(values(path@), sv, gv);
            }
            return Some(path);
        }
        if closed.contains_key(&*current.vertex) {
            proof {
                lemma_stale(u, sv, gv, open0, idx as int, closed.view(), came_from.view(), g_score.view());
            }
        } else {
            proof {
                lemma_close(u, sv, gv, open0, idx as int, closed.view(), came_from.view(), g_score.view());
                vstd::set_lib::lemma_len_subset(closed.view().dom(), u);
            }
            closed.insert(current.vertex.clone(), ());
            let closed_count = closed.len();
            assert(closed_count == closed.view().dom().len());
            relax_neighbors(
                &current.vertex,
                &goal,
                &closed,
                &mut open,
                &mut came_from,
                &mut g_score,
                Ghost(u),
                Ghost(sv),
            );
        }
    }
    proof {
        assert(open@ =~= Seq::<ScoredVertex<T>>::empty());
        lemma_exhausted(u, sv, gv, closed.view(), came_from.view(), g_score.view());
    }
    None
}


} // verus!
