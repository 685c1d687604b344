//! Walks through a lazily generated graph: when they end, how many reach a goal or a leaf.
use crate::graph::Vertex;
use vstd::prelude::*;

verus! {

/// Every walk from `v` that stops at its first vertex at distance zero from `goal` has fewer
/// than `n` vertices.
pub open spec fn settles_within<T: Vertex>(v: T, goal: T, n: nat) -> bool
    decreases n,
{
    n > 0 && (v.estimate(&goal) == 0 || forall|i: int|
        0 <= i < v.adjacent().len() ==> settles_within(#[trigger] v.adjacent()[i], goal, (n - 1) as nat))
}

/// All walks from `v` toward `goal` end: `v` settles within some bound.
pub open spec fn settles<T: Vertex>(v: T, goal: T) -> bool {
    exists|n: nat| settles_within(v, goal, n)
}

/// The least bound within which `v` settles toward `goal`.
pub open spec fn depth<T: Vertex>(v: T, goal: T) -> nat {
    choose|n: nat| settles_within(v, goal, n) && forall|m: nat| m < n ==> !settles_within(v, goal, m)
}

/// The number of walks from `v` of fewer than `n` vertices that end at their first vertex at
/// distance zero from `goal`.
pub open spec fn walks<T: Vertex>(v: T, goal: T, n: nat) -> nat
    decreases n, 0nat,
{
    if n == 0 {
        0
    } else if v.estimate(&goal) == 0 {
        1
    } else {
        walks_all(v.adjacent(), goal, (n - 1) as nat)
    }
}

/// The sum of `walks` over the vertices of `s`.
pub open spec fn walks_all<T: Vertex>(s: Seq<T>, goal: T, n: nat) -> nat
    decreases n, s.len(),
{
    if s.len() == 0 {
        0
    } else {
        walks_all(s.drop_last(), goal, n) + walks(s.last(), goal, n)
    }
}

/// The number of walks from `start` that end at their first vertex at distance zero from `goal`.
pub open spec fn goal_walks<T: Vertex>(start: T, goal: T) -> nat {
    walks(start, goal, depth(start, goal))
}

/// `p` is a walk written from its end back to its beginning: `p[0]` is at distance zero from
/// `goal`, `p.last()` is `start`, and each vertex is a neighbour of the next one, which is not
/// at distance zero.
pub open spec fn walk_back<T: Vertex>(p: Seq<T>, start: T, goal: T) -> bool {
    &&& p.len() >= 1
    &&& p[0].estimate(&goal) == 0
    &&& p.last() == start
    &&& forall|i: int|
        0 <= i < p.len() - 1 ==> (#[trigger] p[i + 1]).estimate(&goal) != 0 && p[i + 1].adjacent().contains(
            p[i],
        )
}

/// Some walk from `v` of fewer than `n` vertices reaches a vertex at distance zero from `goal`.
pub open spec fn reaches_within<T: Vertex>(v: T, goal: T, n: nat) -> bool
    decreases n,
{
    n > 0 && (v.estimate(&goal) == 0 || exists|i: int|
        0 <= i < v.adjacent().len() && reaches_within(#[trigger] v.adjacent()[i], goal, (n - 1) as nat))
}

/// Some walk from `v` reaches a vertex at distance zero from `goal`.
pub open spec fn reaches<T: Vertex>(v: T, goal: T) -> bool {
    exists|n: nat| reaches_within(v, goal, n)
}

proof fn lemma_least_bound<T: Vertex>(v: T, goal: T, k: nat)
    requires
        settles_within(v, goal, k),
    ensures
        exists|n: nat| settles_within(v, goal, n) && forall|m: nat| m < n ==> !settles_within(v, goal, m),
    decreases k,
{
    if exists|m: nat| m < k && settles_within(v, goal, m) {
        let m = choose|m: nat| m < k && settles_within(v, goal, m);
        lemma_least_bound(v, goal, m);
    } else {
        assert(forall|m: nat| m < k ==> !settles_within(v, goal, m));
    }
}

pub(crate) proof fn lemma_depth<T: Vertex>(v: T, goal: T, k: nat)
    requires
        settles_within(v, goal, k),
    ensures
        settles_within(v, goal, depth(v, goal)),
        depth(v, goal) <= k,
        forall|m: nat| m < depth(v, goal) ==> !settles_within(v, goal, m),
{
    lemma_least_bound(v, goal, k);
}

pub(crate) proof fn lemma_settles_mono<T: Vertex>(v: T, goal: T, n: nat, m: nat)
    requires
        settles_within(v, goal, n),
        n <= m,
    ensures
        settles_within(v, goal, m),
    decreases n,
{
    if v.estimate(&goal) != 0 {
        assert forall|i: int| 0 <= i < v.adjacent().len() implies settles_within(
            #[trigger] v.adjacent()[i],
            goal,
            (m - 1) as nat,
        ) by {
            assert(settles_within(v.adjacent()[i], goal, (n - 1) as nat));
            lemma_settles_mono(v.adjacent()[i], goal, (n - 1) as nat, (m - 1) as nat);
        }
    }
}

/// A neighbour of a vertex that is not at the goal has a smaller depth.
pub(crate) proof fn lemma_depth_step<T: Vertex>(u: T, goal: T, k: nat, w: T)
    requires
        settles_within(u, goal, k),
        u.estimate(&goal) != 0,
        u.adjacent().contains(w),
    ensures
        settles_within(w, goal, (depth(u, goal) - 1) as nat),
        depth(w, goal) < depth(u, goal),
{
    lemma_depth(u, goal, k);
    let i = choose|i: int| 0 <= i < u.adjacent().len() && u.adjacent()[i] == w;
    assert(settles_within(u, goal, depth(u, goal)));
    assert(depth(u, goal) > 0);
    assert(settles_within(u.adjacent()[i], goal, (depth(u, goal) - 1) as nat));
    lemma_depth(w, goal, (depth(u, goal) - 1) as nat);
}

pub(crate) proof fn lemma_walks_concat<T: Vertex>(a: Seq<T>, b: Seq<T>, goal: T, n: nat)
    ensures
        walks_all(a + b, goal, n) == walks_all(a, goal, n) + walks_all(b, goal, n),
    decreases b.len(),
{
    if b.len() == 0 {
        assert(a + b =~= a);
    } else {
        assert((a + b).drop_last() =~= a + b.drop_last());
        lemma_walks_concat(a, b.drop_last(), goal, n);
    }
}

pub(crate) proof fn lemma_walks_single<T: Vertex>(v: T, goal: T, n: nat)
    ensures
        walks_all(seq![v], goal, n) == walks(v, goal, n),
{
    assert(seq![v].drop_last() =~= Seq::<T>::empty());
    assert(walks_all(Seq::<T>::empty(), goal, n) == 0);
}

/// Splits off the first vertex of `s` from the sum.
pub(crate) proof fn lemma_walks_front<T: Vertex>(s: Seq<T>, i: int, goal: T, n: nat)
    requires
        0 <= i < s.len(),
    ensures
        walks_all(s.subrange(i, s.len() as int), goal, n) == walks(s[i], goal, n) + walks_all(
            s.subrange(i + 1, s.len() as int),
            goal,
            n,
        ),
{
    assert(s.subrange(i, s.len() as int) =~= seq![s[i]] + s.subrange(i + 1, s.len() as int));
    lemma_walks_concat(seq![s[i]], s.subrange(i + 1, s.len() as int), goal, n);
    lemma_walks_single(s[i], goal, n);
}

/// Every walk from `v` ends at a vertex without neighbours before it has `n` vertices.
pub open spec fn ends_within<T: Vertex>(v: T, n: nat) -> bool
    decreases n,
{
    n > 0 && forall|i: int|
        0 <= i < v.adjacent().len() ==> ends_within(#[trigger] v.adjacent()[i], (n - 1) as nat)
}

/// Every walk from `v` ends: `v` lies on no cycle and reaches finitely many vertices.
pub open spec fn ends<T: Vertex>(v: T) -> bool {
    exists|n: nat| ends_within(v, n)
}

/// The least bound within which every walk from `v` ends.
pub open spec fn height<T: Vertex>(v: T) -> nat {
    choose|n: nat| ends_within(v, n) && forall|m: nat| m < n ==> !ends_within(v, m)
}

/// The number of walks from `v` of fewer than `n` vertices that end at a vertex without
/// neighbours.
pub open spec fn leaves<T: Vertex>(v: T, n: nat) -> nat
    decreases n, 0nat,
{
    if n == 0 {
        0
    } else if v.adjacent().len() == 0 {
        1
    } else {
        leaves_all(v.adjacent(), (n - 1) as nat)
    }
}

/// The sum of `leaves` over the vertices of `s`.
pub open spec fn leaves_all<T: Vertex>(s: Seq<T>, n: nat) -> nat
    decreases n, s.len(),
{
    if s.len() == 0 {
        0
    } else {
        leaves_all(s.drop_last(), n) + leaves(s.last(), n)
    }
}

/// The number of walks from `v` to a vertex without neighbours.
pub open spec fn leaf_walks<T: Vertex>(v: T) -> nat {
    leaves(v, height(v))
}

proof fn lemma_least_height<T: Vertex>(v: T, k: nat)
    requires
        ends_within(v, k),
    ensures
        exists|n: nat| ends_within(v, n) && forall|m: nat| m < n ==> !ends_within(v, m),
    decreases k,
{
    if exists|m: nat| m < k && ends_within(v, m) {
        let m = choose|m: nat| m < k && ends_within(v, m);
        lemma_least_height(v, m);
    } else {
        assert(forall|m: nat| m < k ==> !ends_within(v, m));
    }
}

pub(crate) proof fn lemma_height<T: Vertex>(v: T, k: nat)
    requires
        ends_within(v, k),
    ensures
        ends_within(v, height(v)),
        height(v) <= k,
        forall|m: nat| m < height(v) ==> !ends_within(v, m),
{
    lemma_least_height(v, k);
}

/// A neighbour has a smaller height.
pub(crate) proof fn lemma_height_step<T: Vertex>(u: T, i: int)
    requires
        ends(u),
        0 <= i < u.adjacent().len(),
    ensures
        ends_within(u.adjacent()[i], (height(u) - 1) as nat),
        ends(u.adjacent()[i]),
        ends_within(u.adjacent()[i], height(u.adjacent()[i])),
        height(u.adjacent()[i]) < height(u),
{
    let k = choose|k: nat| ends_within(u, k);
    lemma_height(u, k);
    let w = u.adjacent()[i];
    assert(ends_within(w, (height(u) - 1) as nat));
    lemma_height(w, (height(u) - 1) as nat);
}

/// Counting with a larger bound changes nothing once every walk has ended.
proof fn lemma_leaves_stable<T: Vertex>(v: T, n: nat, k: nat)
    requires
        ends_within(v, n),
        n <= k,
    ensures
        leaves(v, n) == leaves(v, k),
    decreases n, 0nat,
{
    if v.adjacent().len() != 0 {
        lemma_leaves_all_stable(v.adjacent(), (n - 1) as nat, (k - 1) as nat);
    }
}

proof fn lemma_leaves_all_stable<T: Vertex>(s: Seq<T>, n: nat, k: nat)
    requires
        forall|i: int| 0 <= i < s.len() ==> ends_within(#[trigger] s[i], n),
        n <= k,
    ensures
        leaves_all(s, n) == leaves_all(s, k),
    decreases n, s.len(),
{
    if s.len() > 0 {
        lemma_leaves_all_stable(s.drop_last(), n, k);
        lemma_leaves_stable(s.last(), n, k);
    }
}

proof fn lemma_leaves_prefix<T: Vertex>(s: Seq<T>, i: int, n: nat)
    requires
        0 <= i <= s.len(),
    ensures
        leaves_all(s.subrange(0, i), n) <= leaves_all(s, n),
    decreases s.len() - i,
{
    if i < s.len() {
        assert(s.subrange(0, i + 1).drop_last() =~= s.subrange(0, i));
        lemma_leaves_prefix(s, i + 1, n);
    } else {
        assert(s.subrange(0, i) =~= s);
    }
}

/// What one more neighbour adds to the running count.
pub(crate) proof fn lemma_count_step<T: Vertex>(v: T, i: int)
    requires
        ends(v),
        0 <= i < v.adjacent().len(),
    ensures
        ends(v.adjacent()[i]),
        height(v.adjacent()[i]) < height(v),
        leaves_all(v.adjacent().subrange(0, i + 1), (height(v) - 1) as nat) == leaves_all(
            v.adjacent().subrange(0, i),
            (height(v) - 1) as nat,
        ) + leaf_walks(v.adjacent()[i]),
        leaves_all(v.adjacent().subrange(0, i + 1), (height(v) - 1) as nat) <= leaf_walks(v),
{
    let h = height(v);
    let s = v.adjacent();
    let w = s[i];
    lemma_height_step(v, i);
    lemma_leaves_stable(w, height(w), (h - 1) as nat);
    assert(leaf_walks(w) == leaves(w, (h - 1) as nat));
    let p1 = s.subrange(0, i + 1);
    assert(p1.drop_last() =~= s.subrange(0, i));
    assert(p1.last() == w);
    assert(leaves_all(p1, (h - 1) as nat) == leaves_all(s.subrange(0, i), (h - 1) as nat) + leaves(
        w,
        (h - 1) as nat,
    ));
    lemma_leaves_prefix(s, i + 1, (h - 1) as nat);
    lemma_leaf_walks_unfold(v);
}

proof fn lemma_leaf_walks_unfold<T: Vertex>(v: T)
    requires
        ends(v),
        v.adjacent().len() > 0,
    ensures
        leaf_walks(v) == leaves_all(v.adjacent(), (height(v) - 1) as nat),
{
    let k = choose|k: nat| ends_within(v, k);
    lemma_height(v, k);
    assert(height(v) > 0);
}

proof fn lemma_walks_all_ge<T: Vertex>(s: Seq<T>, i: int, goal: T, n: nat)
    requires
        0 <= i < s.len(),
    ensures
        walks_all(s, goal, n) >= walks(s[i], goal, n),
    decreases s.len(),
{
    if i < s.len() - 1 {
        lemma_walks_all_ge(s.drop_last(), i, goal, n);
    }
}

proof fn lemma_walks_all_pos<T: Vertex>(s: Seq<T>, goal: T, n: nat)
    requires
        walks_all(s, goal, n) > 0,
    ensures
        exists|i: int| 0 <= i < s.len() && walks(#[trigger] s[i], goal, n) > 0,
    decreases s.len(),
{
    if walks(s.last(), goal, n) == 0 {
        lemma_walks_all_pos(s.drop_last(), goal, n);
        let i = choose|i: int| 0 <= i < s.drop_last().len() && walks(#[trigger] s.drop_last()[i], goal, n) > 0;
        assert(s[i] == s.drop_last()[i]);
    } else {
        assert(walks(s[s.len() - 1], goal, n) > 0);
    }
}

proof fn lemma_reaching_walk<T: Vertex>(v: T, goal: T, n: nat, m: nat)
    requires
        settles_within(v, goal, n),
        reaches_within(v, goal, m),
    ensures
        walks(v, goal, n) >= 1,
    decreases m,
{
    if v.estimate(&goal) != 0 {
        let i = choose|i: int|
            0 <= i < v.adjacent().len() && reaches_within(#[trigger] v.adjacent()[i], goal, (m - 1) as nat);
        assert(settles_within(v.adjacent()[i], goal, (n - 1) as nat));
        lemma_reaching_walk(v.adjacent()[i], goal, (n - 1) as nat, (m - 1) as nat);
        lemma_walks_all_ge(v.adjacent(), i, goal, (n - 1) as nat);
    }
}

proof fn lemma_walk_reaches<T: Vertex>(v: T, goal: T, n: nat)
    requires
        walks(v, goal, n) > 0,
    ensures
        reaches_within(v, goal, n),
    decreases n,
{
    if v.estimate(&goal) != 0 {
        lemma_walks_all_pos(v.adjacent(), goal, (n - 1) as nat);
        let i = choose|i: int|
            0 <= i < v.adjacent().len() && walks(#[trigger] v.adjacent()[i], goal, (n - 1) as nat) > 0;
        lemma_walk_reaches(v.adjacent()[i], goal, (n - 1) as nat);
    }
}

/// Where every walk from `start` ends and some walk reaches `goal`, there is at least one walk
/// for `bfs_search_all` to return.
pub proof fn lemma_reachable_goal_has_paths<T: Vertex>(start: T, goal: T)
    requires
        settles(start, goal),
        reaches(start, goal),
    ensures
        goal_walks(start, goal) >= 1,
{
    let k = choose|k: nat| settles_within(start, goal, k);
    lemma_depth(start, goal, k);
    let m = choose|m: nat| reaches_within(start, goal, m);
    lemma_reaching_walk(start, goal, depth(start, goal), m);
}

/// Where no walk from `start` reaches `goal`, `bfs_search_all` returns no path.
pub proof fn lemma_unreachable_goal_has_no_paths<T: Vertex>(start: T, goal: T)
    requires
        !reaches(start, goal),
    ensures
        goal_walks(start, goal) == 0,
{
    if goal_walks(start, goal) > 0 {
        lemma_walk_reaches(start, goal, depth(start, goal));
    }
}

proof fn lemma_walk_back_prefix<T: Vertex>(p: Seq<T>, goal: T, i: int)
    requires
        p.len() >= 1,
        p[0].estimate(&goal) == 0,
        forall|k: int|
            0 <= k < p.len() - 1 ==> (#[trigger] p[k + 1]).estimate(&goal) != 0 && p[k + 1].adjacent().contains(
                p[k],
            ),
        0 <= i < p.len(),
    ensures
        reaches_within(p[i], goal, (i + 1) as nat),
    decreases i,
{
    if i > 0 {
        lemma_walk_back_prefix(p, goal, i - 1);
        assert(p[(i - 1) + 1].adjacent().contains(p[i - 1]));
        let j = choose|j: int| 0 <= j < p[i].adjacent().len() && p[i].adjacent()[j] == p[i - 1];
        assert(reaches_within(p[i].adjacent()[j], goal, i as nat));
    }
}

/// A path that `astar_search` or `bfs_search_all` returns is a walk from `start` to the goal,
/// so where no walk reaches the goal, `astar_search` returns `None`.
pub proof fn lemma_path_reaches<T: Vertex>(p: Seq<T>, start: T, goal: T)
    requires
        walk_back(p, start, goal),
    ensures
        reaches(start, goal),
{
    lemma_walk_back_prefix(p, goal, p.len() - 1);
}

/// `w` is reached from `v` in `k` steps.
pub open spec fn steps_to<T: Vertex>(v: T, w: T, k: nat) -> bool
    decreases k,
{
    if k == 0 {
        v == w
    } else {
        exists|i: int| 0 <= i < v.adjacent().len() && steps_to(#[trigger] v.adjacent()[i], w, (k - 1) as nat)
    }
}

/// Some walk leads from `v` to `w`.
pub open spec fn reachable<T: Vertex>(v: T, w: T) -> bool {
    exists|k: nat| steps_to(v, w, k)
}

/// A vertex reached from a neighbour of `v` is reached from `v`.
pub proof fn lemma_reachable_step<T: Vertex>(v: T, i: int, w: T)
    requires
        0 <= i < v.adjacent().len(),
        reachable(v.adjacent()[i], w),
    ensures
        reachable(v, w),
{
    let k = choose|k: nat| steps_to(v.adjacent()[i], w, k);
    assert(steps_to(v, w, k + 1));
}

/// Every vertex that `new` holds and `old` lacks has all its neighbours in `new`.
#[verifier::opaque]
pub open spec fn closed_beyond<T: Vertex, V>(new: Map<T, V>, old: Map<T, V>) -> bool {
    forall|k: T, i: int|
        #![trigger new.contains_key(k), k.adjacent()[i]]
        new.contains_key(k) && !old.contains_key(k) && 0 <= i < k.adjacent().len()
            ==> new.contains_key(k.adjacent()[i])
}

/// `w` is reached from `v` in `k` steps by a walk none of whose vertices is a key of `keys`.
pub open spec fn steps_avoiding<T: Vertex, V>(v: T, w: T, k: nat, keys: Map<T, V>) -> bool
    decreases k,
{
    !keys.contains_key(v) && if k == 0 {
        v == w
    } else {
        exists|i: int|
            0 <= i < v.adjacent().len() && steps_avoiding(#[trigger] v.adjacent()[i], w, (k - 1) as nat, keys)
    }
}

/// A map that holds `v` and every neighbour of each key it gained since `old` holds every
/// vertex reached from `v` while avoiding the keys of `old`. With the `ensures` of the memoised
/// count, whose memo afterwards holds `node` and is closed in this way, this says that the memo
/// gains every vertex reached from `node` outside the old keys.
pub proof fn lemma_closed_holds_reached<T: Vertex, V>(
    new: Map<T, V>,
    old: Map<T, V>,
    v: T,
    w: T,
    k: nat,
)
    requires
        new.contains_key(v),
        closed_beyond(new, old),
        steps_avoiding(v, w, k, old),
    ensures
        new.contains_key(w),
    decreases k,
{
    reveal(closed_beyond);
    if k > 0 {
        let i = choose|i: int|
            0 <= i < v.adjacent().len() && steps_avoiding(#[trigger] v.adjacent()[i], w, (k - 1) as nat, old);
        assert(new.contains_key(v.adjacent()[i]));
        lemma_closed_holds_reached(new, old, v.adjacent()[i], w, (k - 1) as nat);
    }
}

} // verus!
