//! The bond graph of a network: which tensors share a bond, and how many
//! bonds apart two tensors are.

use vstd::prelude::*;

use crate::model::{Index, IndexId, Network};

verus! {

/// Every neighbour is a node of the graph.
pub open spec fn adj_ok(adj: Seq<Vec<usize>>) -> bool {
    forall|u: int, j: int| 0 <= u < adj.len() && 0 <= j < adj[u]@.len() ==> (#[trigger] adj[u]@[j]) < adj.len()
}

/// `v` is a neighbour of `u`.
pub open spec fn edge(adj: Seq<Vec<usize>>, u: int, v: int) -> bool {
    0 <= u < adj.len() && exists|j: int| 0 <= j < adj[u]@.len() && #[trigger] adj[u]@[j] as int == v
}

/// Each node of `p` is a neighbour of the one before.
pub open spec fn is_path(adj: Seq<Vec<usize>>, p: Seq<int>) -> bool {
    forall|i: int| 0 <= i < p.len() - 1 ==> #[trigger] edge(adj, p[i], p[i + 1])
}

/// A walk of `n` steps leads from `s` to `v`.
pub open spec fn walk(adj: Seq<Vec<usize>>, s: int, v: int, n: nat) -> bool {
    exists|p: Seq<int>| #[trigger] is_path(adj, p) && p.len() == n + 1 && p[0] == s && p[n as int] == v
}

/// `v` is `n` steps from `s`, and no fewer.
pub open spec fn hops(adj: Seq<Vec<usize>>, s: int, v: int, n: nat) -> bool {
    walk(adj, s, v, n) && forall|m: nat| m < n ==> !walk(adj, s, v, m)
}

/// The distances found from `s`: the number of steps to each reachable
/// node, and `None` for the others.
pub open spec fn distances_ok(adj: Seq<Vec<usize>>, s: int, d: Seq<Option<usize>>) -> bool {
    &&& d.len() == adj.len()
    &&& forall|v: int|
        0 <= v < d.len() ==> match #[trigger] d[v] {
            Some(x) => hops(adj, s, v, x as nat),
            None => forall|m: nat| !walk(adj, s, v, m),
        }
}

proof fn lemma_walk_zero(adj: Seq<Vec<usize>>, s: int, v: int)
    ensures
        walk(adj, s, v, 0) <==> s == v,
{
    if s == v {
        let p = seq![s];
        assert(is_path(adj, p));
    }
}

proof fn lemma_walk_step(adj: Seq<Vec<usize>>, s: int, u: int, v: int, n: nat)
    requires
        walk(adj, s, u, n),
        edge(adj, u, v),
    ensures
        walk(adj, s, v, n + 1),
{
    let p = choose|p: Seq<int>| #[trigger] is_path(adj, p) && p.len() == n + 1 && p[0] == s && p[n as int] == u;
    let q = p.push(v);
    assert forall|i: int| 0 <= i < q.len() - 1 implies #[trigger] edge(adj, q[i], q[i + 1]) by {
        if i < n {
            assert(q[i] == p[i] && q[i + 1] == p[i + 1]);
            assert(edge(adj, p[i], p[i + 1]));
        }
    }
    assert(is_path(adj, q));
}

proof fn lemma_walk_back(adj: Seq<Vec<usize>>, s: int, v: int, n: nat) -> (w: int)
    requires
        walk(adj, s, v, n + 1),
    ensures
        walk(adj, s, w, n),
        edge(adj, w, v),
{
    let p = choose|p: Seq<int>| #[trigger] is_path(adj, p) && p.len() == n + 2 && p[0] == s && p[n as int + 1] == v;
    let q = p.drop_last();
    assert forall|i: int| 0 <= i < q.len() - 1 implies #[trigger] edge(adj, q[i], q[i + 1]) by {
        assert(edge(adj, p[i], p[i + 1]));
    }
    assert(is_path(adj, q));
    assert(edge(adj, p[n as int], p[n as int + 1]));
    p[n as int]
}

/// The number of found nodes.
pub open spec fn count_some(d: Seq<Option<usize>>) -> nat
    decreases d.len(),
{
    if d.len() == 0 {
        0
    } else {
        count_some(d.drop_last()) + if d.last() is Some {
            1nat
        } else {
            0nat
        }
    }
}

proof fn lemma_count_bound(d: Seq<Option<usize>>)
    ensures
        count_some(d) <= d.len(),
    decreases d.len(),
{
    if d.len() > 0 {
        lemma_count_bound(d.drop_last());
    }
}

proof fn lemma_count_set(d: Seq<Option<usize>>, w: int, x: usize)
    requires
        0 <= w < d.len(),
        d[w] is None,
    ensures
        count_some(d.update(w, Some(x))) == count_some(d) + 1,
    decreases d.len(),
{
    let e = d.update(w, Some(x));
    if w == d.len() - 1 {
        assert(e.drop_last() =~= d.drop_last());
    } else {
        assert(e.drop_last() =~= d.drop_last().update(w, Some(x)));
        lemma_count_set(d.drop_last(), w, x);
    }
}

/// The distance found for a node.
pub open spec fn val(d: Seq<Option<usize>>, v: int) -> int {
    match d[v] {
        Some(x) => x as int,
        None => 0,
    }
}

/// The state of the search from `s` when `h` nodes of the queue `q` have
/// been taken: found nodes are in the queue with their exact distances,
/// the queue is ordered by distance a level at a time, taken nodes have
/// had their neighbours found, and nodes not found are farther than the
/// level being taken.
pub open spec fn searching(g: Seq<Vec<usize>>, s: int, d: Seq<Option<usize>>, q: Seq<usize>, h: int) -> bool {
    let n = g.len();
    &&& adj_ok(g)
    &&& n <= usize::MAX
    &&& 0 <= s < n
    &&& d.len() == n
    &&& d[s] is Some
    &&& 0 <= h <= q.len()
    &&& count_some(d) == q.len()
    &&& forall|j: int| 0 <= j < q.len() ==> (#[trigger] q[j]) < n && d[q[j] as int] is Some
    &&& forall|v: int| 0 <= v < n && #[trigger] d[v] is Some ==> exists|j: int| 0 <= j < q.len() && q[j] == v
    &&& forall|v: int|
        0 <= v < n ==> match #[trigger] d[v] {
            Some(x) => hops(g, s, v, x as nat),
            None => true,
        }
    &&& forall|i: int, j: int| 0 <= i <= j < q.len() ==> val(d, #[trigger] q[i] as int) <= val(d, #[trigger] q[j] as int)
    &&& h < q.len() ==> forall|j: int| h <= j < q.len() ==> val(d, #[trigger] q[j] as int) <= val(d, q[h] as int) + 1
    &&& forall|j: int| 0 <= j < q.len() ==> val(d, #[trigger] q[j] as int) <= j
    &&& forall|j: int, w: int| 0 <= j < h && #[trigger] edge(g, q[j] as int, w) ==> d[w] is Some
    &&& h < q.len() ==> forall|v: int, m: nat|
        0 <= v < n && d[v] is None && m <= val(d, q[h] as int) ==> !#[trigger] walk(g, s, v, m)
}

/// The state while the neighbours of `u`, the node at `h` at distance
/// `level`, are being found: `d0` and `q0` were the state before, and the
/// first `e` neighbours have been found.
pub open spec fn visiting(
    g: Seq<Vec<usize>>,
    s: int,
    d0: Seq<Option<usize>>,
    q0: Seq<usize>,
    h: int,
    d: Seq<Option<usize>>,
    q: Seq<usize>,
    e: int,
) -> bool {
    let n = g.len();
    let u = q0[h] as int;
    let level = val(d0, u);
    &&& searching(g, s, d0, q0, h)
    &&& h < q0.len()
    &&& d.len() == n
    &&& d[s] is Some
    &&& count_some(d) == q.len()
    &&& q.len() >= q0.len()
    &&& q.subrange(0, q0.len() as int) == q0
    &&& forall|v: int| 0 <= v < n && d0[v] is Some ==> d[v] == d0[v]
    &&& forall|j: int| 0 <= j < q.len() ==> (#[trigger] q[j]) < n && d[q[j] as int] is Some
    &&& forall|v: int| 0 <= v < n && #[trigger] d[v] is Some ==> exists|j: int| 0 <= j < q.len() && q[j] == v
    &&& forall|v: int|
        0 <= v < n ==> match #[trigger] d[v] {
            Some(x) => hops(g, s, v, x as nat),
            None => true,
        }
    &&& forall|j: int| q0.len() <= j < q.len() ==> val(d, #[trigger] q[j] as int) == level + 1
    &&& 0 <= e <= g[u]@.len()
    &&& forall|i: int| 0 <= i < e ==> d[#[trigger] g[u]@[i] as int] is Some
    &&& forall|v: int, m: nat| 0 <= v < n && d[v] is None && m <= level ==> !#[trigger] walk(g, s, v, m)
}

proof fn lemma_visit_start(g: Seq<Vec<usize>>, s: int, d: Seq<Option<usize>>, q: Seq<usize>, h: int)
    requires
        searching(g, s, d, q, h),
        h < q.len(),
    ensures
        visiting(g, s, d, q, h, d, q, 0),
{
    assert(q.subrange(0, q.len() as int) =~= q);
}

proof fn lemma_visit_step(
    g: Seq<Vec<usize>>,
    s: int,
    d0: Seq<Option<usize>>,
    q0: Seq<usize>,
    h: int,
    d: Seq<Option<usize>>,
    q: Seq<usize>,
    e: int,
)
    requires
        visiting(g, s, d0, q0, h, d, q, e),
        e < g[q0[h] as int]@.len(),
        d[g[q0[h] as int]@[e] as int] is Some,
    ensures
        visiting(g, s, d0, q0, h, d, q, e + 1),
{
}

proof fn lemma_visit_found(
    g: Seq<Vec<usize>>,
    s: int,
    d0: Seq<Option<usize>>,
    q0: Seq<usize>,
    h: int,
    d: Seq<Option<usize>>,
    q: Seq<usize>,
    e: int,
)
    requires
        visiting(g, s, d0, q0, h, d, q, e),
        e < g[q0[h] as int]@.len(),
        d[g[q0[h] as int]@[e] as int] is None,
    ensures
        val(d0, q0[h] as int) + 1 <= usize::MAX,
        ({
            let w = g[q0[h] as int]@[e];
            let x = (val(d0, q0[h] as int) + 1) as usize;
            visiting(g, s, d0, q0, h, d.update(w as int, Some(x)), q.push(w), e + 1)
        }),
{
    let n = g.len();
    let u = q0[h] as int;
    let level = val(d0, u);
    let w = g[u]@[e];
    let x = (level + 1) as usize;
    assert(w < n);
    assert(level <= h);
    lemma_count_bound(d);
    assert(q0.len() <= q.len() && q.len() == count_some(d) && count_some(d) <= n);
    assert(level + 1 <= usize::MAX);
    let d2 = d.update(w as int, Some(x));
    let q2 = q.push(w);
    lemma_count_set(d, w as int, x);
    assert(edge(g, u, w as int));
    assert(d[u] == d0[u]);
    assert(hops(g, s, u, level as nat));
    lemma_walk_step(g, s, u, w as int, level as nat);
    assert(hops(g, s, w as int, x as nat));
    assert(q2.subrange(0, q0.len() as int) =~= q.subrange(0, q0.len() as int));
    assert forall|v: int| 0 <= v < n && #[trigger] d2[v] is Some implies exists|j: int|
        0 <= j < q2.len() && q2[j] == v by {
        if v == w as int {
            assert(q2[q.len() as int] == w);
        } else {
            let j = choose|j: int| 0 <= j < q.len() && q[j] == v;
            assert(q2[j] == q[j]);
        }
    }
    assert forall|j: int| 0 <= j < q2.len() implies (#[trigger] q2[j]) < n && d2[q2[j] as int] is Some by {
        if j < q.len() {
            assert(q2[j] == q[j]);
        }
    }
    assert forall|j: int| q0.len() <= j < q2.len() implies val(d2, #[trigger] q2[j] as int) == level + 1 by {
        if j < q.len() {
            assert(q2[j] == q[j]);
            assert(val(d, q[j] as int) == level + 1);
        }
    }
    assert forall|v: int|
        0 <= v < n implies match #[trigger] d2[v] {
        Some(y) => hops(g, s, v, y as nat),
        None => true,
    } by {
        if v != w as int {
            assert(d2[v] == d[v]);
        }
    }
}

proof fn lemma_visit_done(
    g: Seq<Vec<usize>>,
    s: int,
    d0: Seq<Option<usize>>,
    q0: Seq<usize>,
    h: int,
    d: Seq<Option<usize>>,
    q: Seq<usize>,
)
    requires
        visiting(g, s, d0, q0, h, d, q, g[q0[h] as int]@.len() as int),
    ensures
        searching(g, s, d, q, h + 1),
{
    let n = g.len();
    let u = q0[h] as int;
    let level = val(d0, u);
    assert forall|j: int| 0 <= j < q0.len() implies #[trigger] q[j] == q0[j] by {
        assert(q.subrange(0, q0.len() as int)[j] == q[j]);
    }
    assert forall|j: int| 0 <= j < q0.len() implies val(d, #[trigger] q[j] as int) == val(d0, q0[j] as int) by {
        assert(q[j] == q0[j]);
        assert(d0[q0[j] as int] is Some);
    }
    // Levels in the old queue: at most one more than the level at `h`, and
    // at least that level from `h` on.
    assert forall|j: int| h <= j < q0.len() implies level <= val(d0, #[trigger] q0[j] as int) <= level + 1 by {}
    assert forall|i: int, j: int| 0 <= i <= j < q.len() implies val(d, #[trigger] q[i] as int) <= val(d, #[trigger] q[j] as int) by {
        if j >= q0.len() {
            if i < q0.len() {
                assert(val(d, q[i] as int) == val(d0, q0[i] as int));
                if i >= h {
                    assert(val(d0, q0[i] as int) <= level + 1);
                } else {
                    assert(val(d0, q0[i] as int) <= val(d0, q0[h] as int));
                }
            }
        } else {
            assert(val(d, q[i] as int) == val(d0, q0[i] as int));
            assert(val(d, q[j] as int) == val(d0, q0[j] as int));
        }
    }
    assert forall|j: int| 0 <= j < q.len() implies val(d, #[trigger] q[j] as int) <= j by {
        if j >= q0.len() {
            assert(val(d0, q0[h] as int) <= h);
        } else {
            assert(val(d, q[j] as int) == val(d0, q0[j] as int));
        }
    }
    assert forall|j: int, w: int| 0 <= j < h + 1 && #[trigger] edge(g, q[j] as int, w) implies d[w] is Some by {
        if j < h {
            assert(q[j] == q0[j]);
            assert(edge(g, q0[j] as int, w));
            assert(d0[w] is Some);
        } else {
            assert(q[j] == q0[h]);
            let i = choose|i: int| 0 <= i < g[u]@.len() && #[trigger] g[u]@[i] as int == w;
            assert(d[g[u]@[i] as int] is Some);
        }
    }
    if h + 1 < q.len() {
        let next = val(d, q[h + 1] as int);
        assert(level <= next <= level + 1) by {
            if h + 1 < q0.len() {
                assert(val(d, q[h + 1] as int) == val(d0, q0[h + 1] as int));
            }
        }
        assert forall|j: int| h + 1 <= j < q.len() implies val(d, #[trigger] q[j] as int) <= next + 1 by {
            if j < q0.len() {
                assert(val(d, q[j] as int) == val(d0, q0[j] as int));
            }
        }
        assert forall|v: int, m: nat| 0 <= v < n && d[v] is None && m <= next implies !#[trigger] walk(g, s, v, m) by {
            if m == level + 1 && walk(g, s, v, m) {
                let w = lemma_walk_back(g, s, v, level as nat);
                assert(0 <= w < n);
                if d[w] is None {
                    assert(!walk(g, s, w, level as nat));
                }
                let jw = choose|j: int| 0 <= j < q.len() && q[j] == w;
                assert(hops(g, s, w, val(d, w) as nat));
                assert(val(d, w) <= level) by {
                    if val(d, w) > level {
                        assert(!walk(g, s, w, level as nat));
                    }
                }
                if jw > h {
                    assert(val(d, q[h + 1] as int) <= val(d, q[jw] as int));
                }
                assert(edge(g, q[jw] as int, v));
            }
        }
    }
}

/// Every node reached by a walk from `s` has been found, once every found
/// node has had its neighbours found.
proof fn lemma_closed(adj: Seq<Vec<usize>>, s: int, d: Seq<Option<usize>>, v: int, m: nat)
    requires
        adj_ok(adj),
        d.len() == adj.len(),
        0 <= s < d.len(),
        d[s] is Some,
        forall|u: int, w: int| 0 <= u < d.len() && d[u] is Some && #[trigger] edge(adj, u, w) ==> d[w] is Some,
        walk(adj, s, v, m),
    ensures
        0 <= v < d.len() && d[v] is Some,
    decreases m,
{
    if m == 0 {
        lemma_walk_zero(adj, s, v);
    } else {
        let w = lemma_walk_back(adj, s, v, (m - 1) as nat);
        lemma_closed(adj, s, d, w, (m - 1) as nat);
        let j = choose|j: int| 0 <= j < adj[w]@.len() && #[trigger] adj[w]@[j] as int == v;
        assert(adj[w]@[j] < adj.len());
    }
}

/// The number of steps from `start` to every node, by breadth-first search.
pub fn bfs(adj: &[Vec<usize>], start: usize) -> (d: Vec<Option<usize>>)
    requires
        adj_ok(adj@),
        start < adj@.len(),
    ensures
        distances_ok(adj@, start as int, d@),
{
    let n = adj.len();
    let ghost g = adj@;
    let mut d: Vec<Option<usize>> = Vec::new();
    let mut k: usize = 0;
    while k < n
        invariant
            k <= n,
            n == g.len(),
            d@.len() == k,
            forall|v: int| 0 <= v < k ==> d@[v] is None,
        decreases n - k,
    {
        d.push(None);
        k = k + 1;
    }
    proof {
        assert(count_some(d@) == 0) by {
            lemma_count_none(d@);
        }
        lemma_count_set(d@, start as int, 0);
    }
    d.set(start, Some(0));
    let mut queue: Vec<usize> = Vec::new();
    queue.push(start);
    proof {
        lemma_walk_zero(g, start as int, start as int);
        assert(hops(g, start as int, start as int, 0));
        assert forall|v: int, m: nat| 0 <= v < n && d@[v] is None && m <= 0 implies !#[trigger] walk(g, start as int, v, m) by {
            lemma_walk_zero(g, start as int, v);
        }
        assert forall|v: int| 0 <= v < n && #[trigger] d@[v] is Some implies exists|j: int|
            0 <= j < queue@.len() && queue@[j] == v by {
            assert(queue@[0] == start);
        }
    }
    let mut h: usize = 0;
    while h < queue.len()
        invariant
            g == adj@,
            n == g.len(),
            searching(g, start as int, d@, queue@, h as int),
        decreases n - h,
    {
        proof {
            lemma_count_bound(d@);
        }
        let u = queue[h];
        proof {
            lemma_visit_start(g, start as int, d@, queue@, h as int);
        }
        let ghost d0 = d@;
        let ghost q0 = queue@;
        let level = match d[u] {
            Some(x) => x,
            None => 0,
        };
        let mut e: usize = 0;
        while e < adj[u].len()
            invariant
                g == adj@,
                n == g.len(),
                u == q0[h as int],
                h < q0.len(),
                level == val(d0, u as int),
                visiting(g, start as int, d0, q0, h as int, d@, queue@, e as int),
            decreases adj@[u as int]@.len() - e,
        {
            let w = adj[u][e];
            let fresh = match d[w] {
                Some(_) => false,
                None => true,
            };
            if fresh {
                proof {
                    lemma_visit_found(g, start as int, d0, q0, h as int, d@, queue@, e as int);
                }
                d.set(w, Some(level + 1));
                queue.push(w);
            } else {
                proof {
                    lemma_visit_step(g, start as int, d0, q0, h as int, d@, queue@, e as int);
                }
            }
            e = e + 1;
        }
        proof {
            lemma_visit_done(g, start as int, d0, q0, h as int, d@, queue@);
        }
        h = h + 1;
    }
    proof {
        assert forall|v: int| 0 <= v < d@.len() implies match #[trigger] d@[v] {
            Some(x) => hops(g, start as int, v, x as nat),
            None => forall|m: nat| !walk(g, start as int, v, m),
        } by {
            if d@[v] is None {
                assert forall|m: nat| !walk(g, start as int, v, m) by {
                    if walk(g, start as int, v, m) {
                        assert forall|x: int, w: int|
                            0 <= x < d@.len() && d@[x] is Some && #[trigger] edge(g, x, w) implies d@[w] is Some by {
                            let j = choose|j: int| 0 <= j < queue@.len() && queue@[j] == x;
                        }
                        lemma_closed(g, start as int, d@, v, m);
                    }
                }
            }
        }
    }
    d
}

proof fn lemma_count_none(d: Seq<Option<usize>>)
    requires
        forall|v: int| 0 <= v < d.len() ==> d[v] is None,
    ensures
        count_some(d) == 0,
    decreases d.len(),
{
    if d.len() > 0 {
        lemma_count_none(d.drop_last());
    }
}

/// `u` is one of the members.
pub open spec fn member(members: Seq<usize>, u: int) -> bool {
    exists|k: int| 0 <= k < members.len() && members[k] as int == u
}

/// The members are nodes of the graph, and every neighbour of a member is a
/// member.
pub open spec fn closed_part(members: Seq<usize>, adj: Seq<Vec<usize>>) -> bool {
    &&& forall|k: int| 0 <= k < members.len() ==> #[trigger] members[k] < adj.len()
    &&& forall|k: int, j: int|
        0 <= k < members.len() && 0 <= j < adj[members[k] as int]@.len() ==> member(
            members,
            #[trigger] adj[members[k] as int]@[j] as int,
        )
}

/// The graph with the neighbours of non-members left out.
pub open spec fn restricted(adj: Seq<Vec<usize>>, members: Seq<usize>, adj2: Seq<Vec<usize>>) -> bool {
    &&& adj2.len() == adj.len()
    &&& forall|u: int| 0 <= u < adj.len() ==> if member(members, u) {
        #[trigger] adj2[u]@ == adj[u]@
    } else {
        adj2[u]@.len() == 0
    }
}

proof fn lemma_restricted_ok(adj: Seq<Vec<usize>>, members: Seq<usize>, adj2: Seq<Vec<usize>>)
    requires
        closed_part(members, adj),
        restricted(adj, members, adj2),
    ensures
        adj_ok(adj2),
{
    assert forall|u: int, j: int| 0 <= u < adj2.len() && 0 <= j < adj2[u]@.len() implies (#[trigger] adj2[u]@[j]) < adj2.len() by {
        if member(members, u) {
            let k = choose|k: int| 0 <= k < members.len() && members[k] as int == u;
            assert(adj2[u]@ == adj[u]@);
            assert(member(members, adj[members[k] as int]@[j] as int));
            let k2 = choose|k2: int| 0 <= k2 < members.len() && members[k2] as int == adj[u]@[j] as int;
            assert(members[k2] < adj.len());
        }
    }
}

proof fn lemma_path_members(adj: Seq<Vec<usize>>, members: Seq<usize>, p: Seq<int>, i: int)
    requires
        closed_part(members, adj),
        is_path(adj, p),
        p.len() > 0,
        member(members, p[0]),
        0 <= i < p.len(),
    ensures
        member(members, p[i]),
    decreases i,
{
    if i > 0 {
        let q = i - 1;
        lemma_path_members(adj, members, p, q);
        assert(edge(adj, p[q], p[q + 1]));
        let k = choose|k: int| 0 <= k < members.len() && members[k] as int == p[q];
        let j = choose|j: int| 0 <= j < adj[p[q]]@.len() && #[trigger] adj[p[q]]@[j] as int == p[q + 1];
        assert(member(members, adj[members[k] as int]@[j] as int));
    }
}

/// From a member, the restricted graph has the same walks as the graph.
proof fn lemma_restricted_walks(adj: Seq<Vec<usize>>, members: Seq<usize>, adj2: Seq<Vec<usize>>, s: int, v: int, m: nat)
    requires
        closed_part(members, adj),
        restricted(adj, members, adj2),
        member(members, s),
    ensures
        walk(adj2, s, v, m) <==> walk(adj, s, v, m),
{
    if walk(adj2, s, v, m) {
        let p = choose|p: Seq<int>| #[trigger] is_path(adj2, p) && p.len() == m + 1 && p[0] == s && p[m as int] == v;
        assert forall|i: int| 0 <= i < p.len() - 1 implies #[trigger] edge(adj, p[i], p[i + 1]) by {
            assert(edge(adj2, p[i], p[i + 1]));
            let j = choose|j: int| 0 <= j < adj2[p[i]]@.len() && #[trigger] adj2[p[i]]@[j] as int == p[i + 1];
            if !member(members, p[i]) {
                assert(adj2[p[i]]@.len() == 0);
            }
            assert(adj2[p[i]]@ == adj[p[i]]@);
            assert(adj[p[i]]@[j] as int == p[i + 1]);
        }
        assert(is_path(adj, p));
    }
    if walk(adj, s, v, m) {
        let p = choose|p: Seq<int>| #[trigger] is_path(adj, p) && p.len() == m + 1 && p[0] == s && p[m as int] == v;
        assert forall|i: int| 0 <= i < p.len() - 1 implies #[trigger] edge(adj2, p[i], p[i + 1]) by {
            lemma_path_members(adj, members, p, i);
            assert(edge(adj, p[i], p[i + 1]));
            assert(adj2[p[i]]@ == adj[p[i]]@);
            let j = choose|j: int| 0 <= j < adj[p[i]]@.len() && #[trigger] adj[p[i]]@[j] as int == p[i + 1];
            assert(adj2[p[i]]@[j] as int == p[i + 1]);
        }
        assert(is_path(adj2, p));
    }
}

/// The hop distances between the members of a part of the graph, by
/// position: `None` when two members are not connected.
pub fn hop_distances(members: &[usize], adj: &[Vec<usize>]) -> (r: Vec<Vec<Option<usize>>>)
    requires
        closed_part(members@, adj@),
    ensures
        r@.len() == members@.len(),
        forall|a: int| 0 <= a < members@.len() ==> (#[trigger] r@[a])@.len() == members@.len(),
        forall|a: int, b: int|
            0 <= a < members@.len() && 0 <= b < members@.len() ==> match #[trigger] r@[a]@[b] {
                Some(x) => hops(adj@, members@[a] as int, members@[b] as int, x as nat),
                None => forall|m: nat| !walk(adj@, members@[a] as int, members@[b] as int, m),
            },
        forall|a: int| 0 <= a < members@.len() ==> (#[trigger] r@[a])@[a] == Some(0usize),
        symmetric(adj@) ==> forall|a: int, b: int|
            0 <= a < members@.len() && 0 <= b < members@.len() ==> #[trigger] r@[a]@[b] == r@[b]@[a],
{
    let mut adj2: Vec<Vec<usize>> = Vec::new();
    let mut u: usize = 0;
    while u < adj.len()
        invariant
            u <= adj@.len(),
            adj2@.len() == u,
            forall|w: int| 0 <= w < u ==> if member(members@, w) {
                #[trigger] adj2@[w]@ == adj@[w]@
            } else {
                adj2@[w]@.len() == 0
            },
        decreases adj@.len() - u,
    {
        let mut found = false;
        let mut k: usize = 0;
        while k < members.len()
            invariant
                k <= members@.len(),
                found == exists|q: int| 0 <= q < k && members@[q] as int == u as int,
            decreases members@.len() - k,
        {
            if members[k] == u {
                found = true;
            }
            k = k + 1;
        }
        if found {
            let mut copy: Vec<usize> = Vec::new();
            let mut j: usize = 0;
            while j < adj[u].len()
                invariant
                    j <= adj@[u as int]@.len(),
                    u < adj@.len(),
                    copy@ == adj@[u as int]@.take(j as int),
                decreases adj@[u as int]@.len() - j,
            {
                copy.push(adj[u][j]);
                j = j + 1;
                assert(copy@ =~= adj@[u as int]@.take(j as int));
            }
            assert(copy@ =~= adj@[u as int]@);
            adj2.push(copy);
        } else {
            adj2.push(Vec::new());
        }
        u = u + 1;
    }
    proof {
        lemma_restricted_ok(adj@, members@, adj2@);
    }
    let mut out: Vec<Vec<Option<usize>>> = Vec::new();
    let mut a: usize = 0;
    while a < members.len()
        invariant
            a <= members@.len(),
            closed_part(members@, adj@),
            restricted(adj@, members@, adj2@),
            adj_ok(adj2@),
            out@.len() == a,
            forall|i: int| 0 <= i < a ==> (#[trigger] out@[i])@.len() == members@.len(),
            forall|i: int, b: int|
                0 <= i < a && 0 <= b < members@.len() ==> match #[trigger] out@[i]@[b] {
                    Some(x) => hops(adj@, members@[i] as int, members@[b] as int, x as nat),
                    None => forall|m: nat| !walk(adj@, members@[i] as int, members@[b] as int, m),
                },
        decreases members@.len() - a,
    {
        let d = bfs(adj2.as_slice(), members[a]);
        let mut row: Vec<Option<usize>> = Vec::new();
        let mut b: usize = 0;
        while b < members.len()
            invariant
                b <= members@.len(),
                a < members@.len(),
                closed_part(members@, adj@),
                adj2@.len() == adj@.len(),
                distances_ok(adj2@, members@[a as int] as int, d@),
                row@.len() == b,
                forall|j: int| 0 <= j < b ==> #[trigger] row@[j] == d@[members@[j] as int],
            decreases members@.len() - b,
        {
            row.push(d[members[b]]);
            b = b + 1;
        }
        proof {
            let s = members@[a as int] as int;
            assert(member(members@, s));
            assert forall|j: int| 0 <= j < members@.len() implies match #[trigger] row@[j] {
                Some(x) => hops(adj@, s, members@[j] as int, x as nat),
                None => forall|m: nat| !walk(adj@, s, members@[j] as int, m),
            } by {
                let v = members@[j] as int;
                assert(row@[j] == d@[v]);
                assert forall|m: nat| walk(adj2@, s, v, m) <==> walk(adj@, s, v, m) by {
                    lemma_restricted_walks(adj@, members@, adj2@, s, v, m);
                }
            }
        }
        out.push(row);
        a = a + 1;
    }
    proof {
        lemma_distances_shape(adj@, members@, out@);
    }
    out
}

/// Distances that are shortest walks put no step between a member and
/// itself, and, along bonds that run both ways, read the same both ways.
proof fn lemma_distances_shape(adj: Seq<Vec<usize>>, members: Seq<usize>, r: Seq<Vec<Option<usize>>>)
    requires
        r.len() == members.len(),
        forall|a: int| 0 <= a < members.len() ==> (#[trigger] r[a])@.len() == members.len(),
        forall|a: int, b: int|
            0 <= a < members.len() && 0 <= b < members.len() ==> match #[trigger] r[a]@[b] {
                Some(x) => hops(adj, members[a] as int, members[b] as int, x as nat),
                None => forall|m: nat| !walk(adj, members[a] as int, members[b] as int, m),
            },
    ensures
        forall|a: int| 0 <= a < members.len() ==> (#[trigger] r[a])@[a] == Some(0usize),
        symmetric(adj) ==> forall|a: int, b: int|
            0 <= a < members.len() && 0 <= b < members.len() ==> #[trigger] r[a]@[b] == r[b]@[a],
{
    assert forall|a: int| 0 <= a < members.len() implies (#[trigger] r[a])@[a] == Some(0usize) by {
        let s = members[a] as int;
        lemma_hops_self(adj, s);
        match r[a]@[a] {
            Some(x) => {
                if x > 0 {
                    assert(!walk(adj, s, s, 0));
                }
            },
            None => {
                assert(!walk(adj, s, s, 0));
            },
        }
    }
    if symmetric(adj) {
        assert forall|a: int, b: int| 0 <= a < members.len() && 0 <= b < members.len() implies #[trigger] r[a]@[b]
            == r[b]@[a] by {
            let s = members[a] as int;
            let v = members[b] as int;
            let x = r[a]@[b];
            let y = r[b]@[a];
            match x {
                Some(p) => {
                    lemma_hops_symmetric(adj, s, v, p as nat);
                    match y {
                        Some(q) => {
                            if q < p {
                                assert(!walk(adj, v, s, q as nat));
                            } else if p < q {
                                assert(!walk(adj, v, s, p as nat));
                            }
                        },
                        None => {
                            assert(!walk(adj, v, s, p as nat));
                        },
                    }
                },
                None => {
                    if let Some(q) = y {
                        lemma_walk_reversed(adj, v, s, q as nat);
                        assert(!walk(adj, s, v, q as nat));
                    }
                },
            }
        }
    }
}

/// `a` and `b` are different tensors joined by a bond.
pub open spec fn bonded(ix: Seq<Index>, a: int, b: int) -> bool {
    a != b && exists|i: int|
        0 <= i < ix.len() && #[trigger] ix[i].holders@.len() == 2 && ((ix[i].holders@[0].0.0 == a
            && ix[i].holders@[1].0.0 == b) || (ix[i].holders@[0].0.0 == b && ix[i].holders@[1].0.0 == a))
}

/// Every bond runs both ways: `u` is a neighbour of `v` when `v` is one of `u`.
pub open spec fn symmetric(adj: Seq<Vec<usize>>) -> bool {
    forall|u: int, v: int| #[trigger] edge(adj, u, v) ==> edge(adj, v, u)
}

/// Every node is no steps from itself.
pub proof fn lemma_hops_self(adj: Seq<Vec<usize>>, s: int)
    ensures
        hops(adj, s, s, 0),
{
    let p = seq![s];
    assert(is_path(adj, p));
}

/// A walk read backwards, along bonds that run both ways.
proof fn lemma_walk_reversed(adj: Seq<Vec<usize>>, s: int, v: int, n: nat)
    requires
        symmetric(adj),
        walk(adj, s, v, n),
    ensures
        walk(adj, v, s, n),
{
    let p = choose|p: Seq<int>| #[trigger] is_path(adj, p) && p.len() == n + 1 && p[0] == s && p[n as int] == v;
    let q = p.reverse();
    assert forall|i: int| 0 <= i < q.len() - 1 implies #[trigger] edge(adj, q[i], q[i + 1]) by {
        let k = p.len() - 2 - i;
        assert(edge(adj, p[k], p[k + 1]));
        assert(q[i] == p[k + 1]);
        assert(q[i + 1] == p[k]);
    }
    assert(is_path(adj, q));
}

/// Along bonds that run both ways, hop distances are symmetric.
pub proof fn lemma_hops_symmetric(adj: Seq<Vec<usize>>, s: int, v: int, n: nat)
    requires
        symmetric(adj),
        hops(adj, s, v, n),
    ensures
        hops(adj, v, s, n),
{
    lemma_walk_reversed(adj, s, v, n);
    assert forall|m: nat| m < n implies !walk(adj, v, s, m) by {
        if walk(adj, v, s, m) {
            lemma_walk_reversed(adj, v, s, m);
        }
    }
}

/// Strictly increasing.
pub open spec fn increasing(s: Seq<usize>) -> bool {
    forall|i: int, j: int| 0 <= i < j < s.len() ==> s[i] < s[j]
}

/// Add a value to an increasing list, unless it is there.
#[verifier::spinoff_prover]
fn insert_sorted(list: &mut Vec<usize>, x: usize)
    requires
        increasing(old(list)@),
    ensures
        increasing(final(list)@),
        forall|y: usize| final(list)@.contains(y) <==> (old(list)@.contains(y) || y == x),
{
    let mut k: usize = 0;
    while k < list.len() && list[k] < x
        invariant
            k <= list@.len(),
            increasing(list@),
            list@ == old(list)@,
            forall|i: int| 0 <= i < k ==> list@[i] < x,
        decreases list@.len() - k,
    {
        k = k + 1;
    }
    if k < list.len() && list[k] == x {
        return;
    }
    let ghost before = list@;
    list.insert(k, x);
    proof {
        assert(list@ == before.insert(k as int, x));
        assert forall|i: int, j: int| 0 <= i < j < list@.len() implies list@[i] < list@[j] by {
            if j < k {
            } else if i > k {
                assert(list@[i] == before[i - 1] && list@[j] == before[j - 1]);
            } else if i == k {
                assert(list@[j] == before[j - 1]);
                assert(before[k as int] > x);
                if j - 1 > k {
                    assert(before[k as int] < before[j - 1]);
                }
            } else {
                if j == k {
                } else {
                    assert(list@[j] == before[j - 1]);
                    assert(before[i] < x);
                    assert(x < before[k as int] || k == before.len());
                }
            }
        }
        assert forall|y: usize| list@.contains(y) <==> (before.contains(y) || y == x) by {
            if list@.contains(y) {
                let i = choose|i: int| 0 <= i < list@.len() && list@[i] == y;
                if i < k {
                    assert(before[i] == y);
                } else if i > k {
                    assert(before[i - 1] == y);
                }
            }
            if before.contains(y) {
                let i = choose|i: int| 0 <= i < before.len() && before[i] == y;
                if i < k {
                    assert(list@[i] == y);
                } else {
                    assert(list@[i + 1] == y);
                }
            }
            if y == x {
                assert(list@[k as int] == x);
            }
        }
        assert(before == old(list)@);
        assert(forall|y: usize| list@.contains(y) <==> (old(list)@.contains(y) || y == x));
    }
}

/// Neighbours along bonds, in increasing order and each once.
pub fn adjacency(net: &Network) -> (adj: Vec<Vec<usize>>)
    requires
        net.wf(),
    ensures
        adj@.len() == net.tensors_view().len(),
        adj_ok(adj@),
        forall|a: int| 0 <= a < adj@.len() ==> increasing(#[trigger] adj@[a]@),
        forall|a: int, b: usize|
            0 <= a < adj@.len() ==> ((#[trigger] adj@[a]@.contains(b)) <==> bonded(net.indices_view(), a, b as int)),
{
    let nt = net.tensors().len();
    let ix = net.indices();
    let mut adj: Vec<Vec<usize>> = Vec::new();
    let mut k: usize = 0;
    while k < nt
        invariant
            k <= nt,
            adj@.len() == k,
            forall|a: int| 0 <= a < k ==> (#[trigger] adj@[a])@.len() == 0,
        decreases nt - k,
    {
        adj.push(Vec::new());
        k = k + 1;
    }
    let mut i: usize = 0;
    while i < ix.len()
        invariant
            net.wf(),
            nt == net.tensors_view().len(),
            ix@ == net.indices_view(),
            i <= ix@.len(),
            adj@.len() == nt,
            forall|a: int| 0 <= a < nt ==> increasing(#[trigger] adj@[a]@),
            forall|a: int, b: usize|
                0 <= a < nt ==> ((#[trigger] adj@[a]@.contains(b)) <==> bonded(ix@.take(i as int), a, b as int)),
        decreases ix@.len() - i,
    {
        let ghost before = adj@;
        let holders = ix[i].holders();
        if holders.len() == 2 {
            let a = holders[0].0.0;
            let b = holders[1].0.0;
            proof {
                net.lemma_holder(IndexId(i), 0);
                net.lemma_holder(IndexId(i), 1);
            }
            if a != b {
                let mut la = adj[a].clone();
                assert(la@ == adj@[a as int]@);
                insert_sorted(&mut la, b);
                adj.set(a, la);
                let mut lb = adj[b].clone();
                assert(lb@ == adj@[b as int]@);
                insert_sorted(&mut lb, a);
                adj.set(b, lb);
            }
        }
        proof {
            let t = ix@.take(i + 1);
            assert(t.drop_last() =~= ix@.take(i as int));
            assert forall|x: int, y: usize| 0 <= x < nt implies ((#[trigger] adj@[x]@.contains(y)) <==> bonded(t, x, y as int)) by {
                let h = ix@[i as int].holders@;
                if bonded(ix@.take(i as int), x, y as int) {
                    let w = choose|w: int| 0 <= w < ix@.take(i as int).len() && #[trigger] ix@.take(i as int)[w].holders@.len() == 2 && ((ix@.take(i as int)[w].holders@[0].0.0 == x
                        && ix@.take(i as int)[w].holders@[1].0.0 == y as int) || (ix@.take(i as int)[w].holders@[0].0.0 == y as int && ix@.take(i as int)[w].holders@[1].0.0 == x));
                    assert(t[w] == ix@.take(i as int)[w]);
                }
                if bonded(t, x, y as int) {
                    let w = choose|w: int| 0 <= w < t.len() && #[trigger] t[w].holders@.len() == 2 && ((t[w].holders@[0].0.0 == x
                        && t[w].holders@[1].0.0 == y as int) || (t[w].holders@[0].0.0 == y as int && t[w].holders@[1].0.0 == x));
                    if w < i {
                        assert(ix@.take(i as int)[w] == t[w]);
                    }
                }
                if h.len() == 2 && h[0].0.0 != h[1].0.0 && (h[0].0.0 == x || h[1].0.0 == x) {
                    assert(t[i as int] == ix@[i as int]);
                }
            }
        }
        i = i + 1;
    }
    proof {
        assert(ix@.take(ix@.len() as int) =~= ix@);
        assert forall|u: int, j: int| 0 <= u < adj@.len() && 0 <= j < adj@[u]@.len() implies (#[trigger] adj@[u]@[j]) < adj@.len() by {
            let y = adj@[u]@[j];
            assert(adj@[u]@.contains(y));
            let w = choose|w: int| 0 <= w < ix@.len() && #[trigger] ix@[w].holders@.len() == 2 && ((ix@[w].holders@[0].0.0 == u
                && ix@[w].holders@[1].0.0 == y as int) || (ix@[w].holders@[0].0.0 == y as int && ix@[w].holders@[1].0.0 == u));
            net.lemma_holder(IndexId(w as usize), 0);
            net.lemma_holder(IndexId(w as usize), 1);
        }
    }
    adj
}

} // verus!
