//! Levels: the layer of each node in the automatic layout.
//!
//! A graph is given by the number `n` of its nodes and by its edges, pairs
//! `(from, to)` of node indices. A node is settled when every edge into it
//! comes from a settled node; its level is then the length of the longest
//! path that ends in it. The nodes on a cycle, and those that can be reached
//! from one, never settle: they get a best-effort level, in declaration order.

use vstd::prelude::*;

verus! {

/// Whether every edge joins two of the `n` nodes.
pub open spec fn graph_ok(n: int, edges: Seq<(usize, usize)>) -> bool {
    forall|e: int| 0 <= e < edges.len() ==> (#[trigger] edges[e]).0 < n && edges[e].1 < n
}

/// The greater of `a` and `b`.
pub open spec fn larger(a: nat, b: nat) -> nat {
    if a < b {
        b
    } else {
        a
    }
}

/// The level that the first `upto` edges give to `v` when `prev` holds the
/// levels of the nodes that are settled so far: one more than the highest
/// level of a source, 0 without an edge into `v`, and `None` if a source is
/// not settled.
pub open spec fn fold_in(
    edges: Seq<(usize, usize)>,
    prev: Seq<Option<nat>>,
    v: int,
    upto: int,
) -> Option<nat>
    decreases upto,
{
    if upto <= 0 {
        Some(0)
    } else {
        let r = fold_in(edges, prev, v, upto - 1);
        let e = edges[upto - 1];
        if e.1 != v {
            r
        } else {
            match (r, prev[e.0 as int]) {
                (Some(a), Some(b)) => Some(larger(a, b + 1)),
                _ => None,
            }
        }
    }
}

/// The levels of the nodes that settle within `k` rounds.
pub open spec fn round(n: int, edges: Seq<(usize, usize)>, k: nat) -> Seq<Option<nat>>
    decreases k,
{
    if k == 0 {
        Seq::new(n as nat, |v: int| None)
    } else {
        let prev = round(n, edges, (k - 1) as nat);
        Seq::new(n as nat, |v: int| fold_in(edges, prev, v, edges.len() as int))
    }
}

/// The levels of the settled nodes; `None` for a node that never settles.
pub open spec fn settled(n: int, edges: Seq<(usize, usize)>) -> Seq<Option<nat>> {
    round(n, edges, n as nat)
}

/// One more than the highest level in `known` of a source among the first
/// `upto` edges into `v`; 0 if none of them has a source with a level.
pub open spec fn known_in(
    edges: Seq<(usize, usize)>,
    known: Seq<Option<nat>>,
    v: int,
    upto: int,
) -> nat
    decreases upto,
{
    if upto <= 0 {
        0
    } else {
        let r = known_in(edges, known, v, upto - 1);
        let e = edges[upto - 1];
        match known[e.0 as int] {
            Some(b) => if e.1 == v {
                larger(r, b + 1)
            } else {
                r
            },
            None => r,
        }
    }
}

/// One more than the highest level in `cur` of a source among the first
/// `upto` edges into `v`; 0 if there is no such edge.
pub open spec fn full_in(edges: Seq<(usize, usize)>, cur: Seq<nat>, v: int, upto: int) -> nat
    decreases upto,
{
    if upto <= 0 {
        0
    } else {
        let r = full_in(edges, cur, v, upto - 1);
        let e = edges[upto - 1];
        if e.1 == v {
            larger(r, cur[e.0 as int] + 1)
        } else {
            r
        }
    }
}

/// The levels before the best-effort pass: a settled node has its level, any
/// other node what its settled sources give it.
pub open spec fn base_levels(n: int, edges: Seq<(usize, usize)>) -> Seq<nat> {
    Seq::new(
        n as nat,
        |v: int|
            match settled(n, edges)[v] {
                Some(l) => l,
                None => known_in(edges, settled(n, edges), v, edges.len() as int),
            },
    )
}

/// The best-effort pass over the first `upto` nodes: each node that is not
/// settled gets, in declaration order, one more than the highest level that
/// its sources have at that moment, or 0 without an edge into it.
pub open spec fn fallback(n: int, edges: Seq<(usize, usize)>, upto: int) -> Seq<nat>
    decreases upto,
{
    if upto <= 0 {
        base_levels(n, edges)
    } else {
        let before = fallback(n, edges, upto - 1);
        let v = upto - 1;
        if settled(n, edges)[v] is Some {
            before
        } else {
            before.update(v, full_in(edges, before, v, edges.len() as int))
        }
    }
}

/// The level of every node.
pub open spec fn levels_of(n: int, edges: Seq<(usize, usize)>) -> Seq<nat> {
    fallback(n, edges, n)
}

/// Whether `rank` numbers the nodes so that every edge leads upwards: such
/// a numbering exists exactly for the graphs without a cycle.
pub open spec fn topological(n: int, edges: Seq<(usize, usize)>, rank: Seq<nat>) -> bool {
    rank.len() == n && forall|e: int|
        0 <= e < edges.len() ==> rank[(#[trigger] edges[e]).0 as int] < rank[edges[e].1 as int]
}

// ----- counting what the queue pass has not yet done -----
/// The number of edges into `v` among the first `upto` that are not done.
pub open spec fn pending(edges: Seq<(usize, usize)>, done: Seq<bool>, v: int, upto: int) -> nat
    decreases upto,
{
    if upto <= 0 {
        0
    } else {
        pending(edges, done, v, upto - 1) + if edges[upto - 1].1 == v && !done[upto - 1] {
            1nat
        } else {
            0nat
        }
    }
}

/// One more than the highest level of a source among the done edges into
/// `v` within the first `upto`; 0 if there is none.
pub open spec fn reach(
    edges: Seq<(usize, usize)>,
    done: Seq<bool>,
    lv: Seq<usize>,
    v: int,
    upto: int,
) -> nat
    decreases upto,
{
    if upto <= 0 {
        0
    } else {
        let r = reach(edges, done, lv, v, upto - 1);
        let e = edges[upto - 1];
        if e.1 == v && done[upto - 1] {
            larger(r, (lv[e.0 as int] + 1) as nat)
        } else {
            r
        }
    }
}

/// The number of zeros among the first `upto` of `deg`.
pub open spec fn zeros(deg: Seq<usize>, upto: int) -> nat
    decreases upto,
{
    if upto <= 0 {
        0
    } else {
        zeros(deg, upto - 1) + if deg[upto - 1] == 0 {
            1nat
        } else {
            0nat
        }
    }
}

proof fn lemma_zeros_bound(deg: Seq<usize>, upto: int)
    requires
        0 <= upto,
    ensures
        zeros(deg, upto) <= upto,
    decreases upto,
{
    if upto > 0 {
        lemma_zeros_bound(deg, upto - 1);
    }
}

proof fn lemma_zeros_update(deg: Seq<usize>, t: int, x: usize, upto: int)
    requires
        0 <= t < deg.len(),
        0 <= upto <= deg.len(),
        deg[t] != 0,
    ensures
        zeros(deg.update(t, x), upto) == zeros(deg, upto) + if t < upto && x == 0 {
            1nat
        } else {
            0nat
        },
    decreases upto,
{
    if upto > 0 {
        lemma_zeros_update(deg, t, x, upto - 1);
    }
}

proof fn lemma_pending_flip(edges: Seq<(usize, usize)>, done: Seq<bool>, j: int, v: int, upto: int)
    requires
        0 <= j < edges.len(),
        done.len() == edges.len(),
        0 <= upto <= edges.len(),
        !done[j],
    ensures
        pending(edges, done.update(j, true), v, upto) + (if j < upto && edges[j].1 == v {
            1nat
        } else {
            0nat
        }) == pending(edges, done, v, upto),
    decreases upto,
{
    if upto > 0 {
        lemma_pending_flip(edges, done, j, v, upto - 1);
    }
}

proof fn lemma_pending_some(edges: Seq<(usize, usize)>, done: Seq<bool>, v: int, j: int, upto: int)
    requires
        0 <= j < upto <= edges.len(),
        edges[j].1 == v,
        !done[j],
    ensures
        pending(edges, done, v, upto) > 0,
    decreases upto,
{
    if j < upto - 1 {
        lemma_pending_some(edges, done, v, j, upto - 1);
    }
}

proof fn lemma_pending_none(edges: Seq<(usize, usize)>, done: Seq<bool>, v: int, upto: int)
    requires
        0 <= upto <= edges.len(),
        pending(edges, done, v, upto) == 0,
    ensures
        forall|e: int| 0 <= e < upto && (#[trigger] edges[e]).1 == v ==> done[e],
    decreases upto,
{
    if upto > 0 {
        lemma_pending_none(edges, done, v, upto - 1);
    }
}

/// An edge into `v` that is not done, where one is pending.
proof fn lemma_pending_witness(edges: Seq<(usize, usize)>, done: Seq<bool>, v: int, upto: int) -> (e:
    int)
    requires
        0 <= upto <= edges.len(),
        pending(edges, done, v, upto) > 0,
    ensures
        0 <= e < upto && edges[e].1 == v && !done[e],
    decreases upto,
{
    if edges[upto - 1].1 == v && !done[upto - 1] {
        upto - 1
    } else {
        lemma_pending_witness(edges, done, v, upto - 1)
    }
}

proof fn lemma_pending_bound(edges: Seq<(usize, usize)>, done: Seq<bool>, v: int, upto: int)
    requires
        0 <= upto,
    ensures
        pending(edges, done, v, upto) <= upto,
    decreases upto,
{
    if upto > 0 {
        lemma_pending_bound(edges, done, v, upto - 1);
    }
}

proof fn lemma_reach_frame(
    edges: Seq<(usize, usize)>,
    d1: Seq<bool>,
    l1: Seq<usize>,
    d2: Seq<bool>,
    l2: Seq<usize>,
    v: int,
    upto: int,
)
    requires
        0 <= upto <= edges.len(),
        forall|e: int|
            0 <= e < upto && (#[trigger] edges[e]).1 == v ==> d1[e] == d2[e] && (d1[e]
                ==> l1[edges[e].0 as int] == l2[edges[e].0 as int]),
    ensures
        reach(edges, d1, l1, v, upto) == reach(edges, d2, l2, v, upto),
    decreases upto,
{
    if upto > 0 {
        lemma_reach_frame(edges, d1, l1, d2, l2, v, upto - 1);
    }
}

proof fn lemma_reach_flip(
    edges: Seq<(usize, usize)>,
    done: Seq<bool>,
    lv: Seq<usize>,
    j: int,
    upto: int,
)
    requires
        0 <= j < edges.len(),
        done.len() == edges.len(),
        0 <= upto <= edges.len(),
        !done[j],
    ensures
        reach(edges, done.update(j, true), lv, edges[j].1 as int, upto) == if j < upto {
            larger(
                reach(edges, done, lv, edges[j].1 as int, upto),
                (lv[edges[j].0 as int] + 1) as nat,
            )
        } else {
            reach(edges, done, lv, edges[j].1 as int, upto)
        },
    decreases upto,
{
    if upto > 0 {
        lemma_reach_flip(edges, done, lv, j, upto - 1);
    }
}

// ----- the queue pass -----
/// What holds while the queue pass runs. `q` is the queue, its first `head`
/// nodes are visited; `done` marks the edges that have been followed; `pos`
/// is each queued node's place in `q`; `cur` is the node whose edges are
/// being followed, up to the edge `j`.
pub open spec fn pass_inv(
    n: int,
    edges: Seq<(usize, usize)>,
    lv: Seq<usize>,
    deg: Seq<usize>,
    q: Seq<usize>,
    head: int,
    done: Seq<bool>,
    pos: Seq<int>,
    cur: int,
    j: int,
) -> bool {
    let m = edges.len() as int;
    &&& lv.len() == n && deg.len() == n && pos.len() == n && done.len() == m
    &&& 0 <= head <= q.len()
    &&& q.len() == zeros(deg, n)
    &&& forall|v: int| 0 <= v < n ==> #[trigger] deg[v] == pending(edges, done, v, m)
    &&& forall|v: int|
        0 <= v < n && #[trigger] deg[v] == 0 ==> 0 <= pos[v] < q.len() && q[pos[v]] == v
    &&& forall|i: int|
        0 <= i < q.len() ==> #[trigger] q[i] < n && deg[q[i] as int] == 0 && pos[q[i] as int] == i
    &&& forall|e: int|
        0 <= e < m ==> (#[trigger] done[e] <==> (deg[edges[e].0 as int] == 0
            && pos[edges[e].0 as int] < head && (edges[e].0 != cur || e < j)))
    &&& forall|v: int| 0 <= v < n ==> #[trigger] lv[v] == reach(edges, done, lv, v, m)
    &&& forall|v: int| 0 <= v < n ==> #[trigger] lv[v] <= head && (deg[v] == 0 ==> lv[v] <= pos[v])
    &&& forall|e: int|
        0 <= e < m && #[trigger] done[e] && deg[edges[e].1 as int] == 0 ==> pos[edges[e].0 as int]
            < pos[edges[e].1 as int]
}

/// Following the edge `j` out of the current node keeps `pass_inv`.
proof fn lemma_follow_edge(
    n: int,
    edges: Seq<(usize, usize)>,
    lv: Seq<usize>,
    deg: Seq<usize>,
    q: Seq<usize>,
    head: int,
    done: Seq<bool>,
    pos: Seq<int>,
    u: int,
    j: int,
)
    requires
        graph_ok(n, edges),
        n <= usize::MAX,
        pass_inv(n, edges, lv, deg, q, head, done, pos, u, j),
        0 <= j < edges.len(),
        0 < head,
        q[head - 1] == u,
        edges[j].0 == u,
    ensures
        ({
            let t = edges[j].1 as int;
            let lu = lv[u];
            let lv2 = if lv[t] < lu + 1 {
                lv.update(t, (lu + 1) as usize)
            } else {
                lv
            };
            let deg2 = deg.update(t, (deg[t] - 1) as usize);
            let q2 = if deg[t] == 1 {
                q.push(t as usize)
            } else {
                q
            };
            let pos2 = if deg[t] == 1 {
                pos.update(t, q.len() as int)
            } else {
                pos
            };
            &&& deg[t] > 0
            &&& t != u
            &&& lu + 1 <= head
            &&& q2.len() <= n
            &&& pass_inv(n, edges, lv2, deg2, q2, head, done.update(j, true), pos2, u, j + 1)
        }),
{
    let m = edges.len() as int;
    let t = edges[j].1 as int;
    let lu = lv[u];
    let lv2 = if lv[t] < lu + 1 {
        lv.update(t, (lu + 1) as usize)
    } else {
        lv
    };
    let deg2 = deg.update(t, (deg[t] - 1) as usize);
    let q2 = if deg[t] == 1 {
        q.push(t as usize)
    } else {
        q
    };
    let pos2 = if deg[t] == 1 {
        pos.update(t, q.len() as int)
    } else {
        pos
    };
    let done2 = done.update(j, true);
    assert(q[head - 1] < n && deg[q[head - 1] as int] == 0 && pos[q[head - 1] as int] == head - 1);
    assert(!done[j]);
    assert(edges[j].1 < n);
    lemma_pending_some(edges, done, t, j, m);
    assert(deg[t] == pending(edges, done, t, m));
    assert(deg[t] > 0);
    assert(t != u);
    assert(lv[u] <= head && (deg[u] == 0 ==> lv[u] <= pos[u]));
    lemma_zeros_update(deg, t, (deg[t] - 1) as usize, n);
    lemma_zeros_bound(deg2, n);
    assert(q2.len() == zeros(deg2, n));
    assert forall|v: int| 0 <= v < n implies #[trigger] deg2[v] == pending(edges, done2, v, m) by {
        lemma_pending_flip(edges, done, j, v, m);
        assert(deg[v] == pending(edges, done, v, m));
    }
    assert forall|v: int| 0 <= v < n && #[trigger] deg2[v] == 0 implies 0 <= pos2[v] < q2.len()
        && q2[pos2[v]] == v by {
        if v != t {
            assert(deg[v] == 0);
        }
    }
    assert forall|i: int| 0 <= i < q2.len() implies #[trigger] q2[i] < n && deg2[q2[i] as int] == 0
        && pos2[q2[i] as int] == i by {
        if i < q.len() {
            assert(q[i] < n && deg[q[i] as int] == 0 && pos[q[i] as int] == i);
        }
    }
    assert forall|e: int| 0 <= e < m implies (#[trigger] done2[e] <==> (deg2[edges[e].0 as int] == 0
        && pos2[edges[e].0 as int] < head && (edges[e].0 != u || e < j + 1))) by {
        assert(edges[e].0 < n);
        assert(done[e] <==> (deg[edges[e].0 as int] == 0 && pos[edges[e].0 as int] < head && (
        edges[e].0 != u || e < j)));
    }
    assert forall|e: int| 0 <= e < m && #[trigger] done2[e] implies lv2[edges[e].0 as int]
        == lv[edges[e].0 as int] by {
        assert(edges[e].0 < n);
        assert(done[e] <==> (deg[edges[e].0 as int] == 0 && pos[edges[e].0 as int] < head && (
        edges[e].0 != u || e < j)));
    }
    assert forall|v: int| 0 <= v < n implies #[trigger] lv2[v] == reach(
        edges,
        done2,
        lv2,
        v,
        m,
    ) by {
        assert(lv[v] == reach(edges, done, lv, v, m));
        if v != t {
            assert forall|e: int| 0 <= e < m && (#[trigger] edges[e]).1 == v implies done2[e]
                == done[e] && (done2[e] ==> lv2[edges[e].0 as int] == lv[edges[e].0 as int]) by {
                if done2[e] {
                    assert(lv2[edges[e].0 as int] == lv[edges[e].0 as int]);
                }
            }
            lemma_reach_frame(edges, done2, lv2, done, lv, v, m);
        } else {
            assert forall|e: int| 0 <= e < m && (#[trigger] edges[e]).1 == v implies done2[e]
                == done2[e] && (done2[e] ==> lv2[edges[e].0 as int] == lv[edges[e].0 as int]) by {
                if done2[e] {
                    assert(lv2[edges[e].0 as int] == lv[edges[e].0 as int]);
                }
            }
            lemma_reach_frame(edges, done2, lv2, done2, lv, v, m);
            lemma_reach_flip(edges, done, lv, j, m);
        }
    }
    assert forall|v: int| 0 <= v < n implies #[trigger] lv2[v] <= head && (deg2[v] == 0 ==> lv2[v]
        <= pos2[v]) by {
        assert(lv[v] <= head && (deg[v] == 0 ==> lv[v] <= pos[v]));
    }
    assert forall|e: int|
        0 <= e < m && #[trigger] done2[e] && deg2[edges[e].1 as int] == 0 implies pos2[edges[e].0 as int]
        < pos2[edges[e].1 as int] by {
        assert(edges[e].0 < n && edges[e].1 < n);
        assert(done[e] <==> (deg[edges[e].0 as int] == 0 && pos[edges[e].0 as int] < head && (
        edges[e].0 != u || e < j)));
        if edges[e].1 == t {
        } else {
            assert(done[e]);
        }
    }
}

/// A level that `fold_in` gives equals what the done edges reach, where
/// every edge into `v` is done and comes from a node whose level is known.
proof fn lemma_fold_reach(
    edges: Seq<(usize, usize)>,
    prev: Seq<Option<nat>>,
    done: Seq<bool>,
    lv: Seq<usize>,
    v: int,
    upto: int,
)
    requires
        0 <= upto <= edges.len(),
        forall|e: int|
            0 <= e < upto && (#[trigger] edges[e]).1 == v ==> done[e] && prev[edges[e].0 as int]
                == Some(lv[edges[e].0 as int] as nat),
    ensures
        fold_in(edges, prev, v, upto) == Some(reach(edges, done, lv, v, upto)),
    decreases upto,
{
    if upto > 0 {
        lemma_fold_reach(edges, prev, done, lv, v, upto - 1);
    }
}

/// `fold_in` gives no level where an edge into `v` comes from a node without one.
proof fn lemma_fold_none(
    edges: Seq<(usize, usize)>,
    prev: Seq<Option<nat>>,
    v: int,
    e: int,
    upto: int,
)
    requires
        0 <= e < upto <= edges.len(),
        edges[e].1 == v,
        prev[edges[e].0 as int] is None,
    ensures
        fold_in(edges, prev, v, upto) is None,
    decreases upto,
{
    if e < upto - 1 {
        lemma_fold_none(edges, prev, v, e, upto - 1);
    }
}

/// What the done edges reach is what the known sources give, where the done
/// edges are those that come from a node with a known level.
proof fn lemma_reach_known(
    edges: Seq<(usize, usize)>,
    known: Seq<Option<nat>>,
    done: Seq<bool>,
    lv: Seq<usize>,
    v: int,
    upto: int,
)
    requires
        0 <= upto <= edges.len(),
        forall|e: int|
            0 <= e < upto ==> (#[trigger] done[e] <==> known[edges[e].0 as int] is Some) && (done[e]
                ==> known[edges[e].0 as int] == Some(lv[edges[e].0 as int] as nat)),
    ensures
        reach(edges, done, lv, v, upto) == known_in(edges, known, v, upto),
    decreases upto,
{
    if upto > 0 {
        lemma_reach_known(edges, known, done, lv, v, upto - 1);
        assert(done[upto - 1] <==> known[edges[upto - 1].0 as int] is Some);
    }
}

/// Every visited node is settled within as many rounds as its place in the
/// queue, and has the level it was given.
proof fn lemma_visited_settled(
    n: int,
    edges: Seq<(usize, usize)>,
    lv: Seq<usize>,
    deg: Seq<usize>,
    q: Seq<usize>,
    done: Seq<bool>,
    pos: Seq<int>,
    k: nat,
)
    requires
        graph_ok(n, edges),
        pass_inv(n, edges, lv, deg, q, q.len() as int, done, pos, -1, 0),
    ensures
        forall|v: int|
            0 <= v < n && #[trigger] deg[v] == 0 && pos[v] < k ==> round(n, edges, k)[v] == Some(
                lv[v] as nat,
            ),
    decreases k,
{
    if k > 0 {
        lemma_visited_settled(n, edges, lv, deg, q, done, pos, (k - 1) as nat);
        let prev = round(n, edges, (k - 1) as nat);
        let m = edges.len() as int;
        assert forall|v: int| 0 <= v < n && #[trigger] deg[v] == 0 && pos[v] < k implies round(
            n,
            edges,
            k,
        )[v] == Some(lv[v] as nat) by {
            assert(deg[v] == pending(edges, done, v, m));
            lemma_pending_none(edges, done, v, m);
            assert forall|e: int| 0 <= e < m && (#[trigger] edges[e]).1 == v implies done[e]
                && prev[edges[e].0 as int] == Some(lv[edges[e].0 as int] as nat) by {
                assert(done[e]);
                assert(edges[e].0 < n);
                let w = edges[e].0 as int;
                assert(deg[w] == 0);
                assert(pos[w] < pos[v]);
            }
            lemma_fold_reach(edges, prev, done, lv, v, m);
            assert(lv[v] == reach(edges, done, lv, v, m));
        }
    }
}

/// A node that was never queued is settled in no round.
proof fn lemma_unvisited_unsettled(
    n: int,
    edges: Seq<(usize, usize)>,
    lv: Seq<usize>,
    deg: Seq<usize>,
    q: Seq<usize>,
    done: Seq<bool>,
    pos: Seq<int>,
    k: nat,
)
    requires
        graph_ok(n, edges),
        pass_inv(n, edges, lv, deg, q, q.len() as int, done, pos, -1, 0),
    ensures
        forall|v: int| 0 <= v < n && #[trigger] deg[v] != 0 ==> round(n, edges, k)[v] is None,
    decreases k,
{
    if k > 0 {
        lemma_unvisited_unsettled(n, edges, lv, deg, q, done, pos, (k - 1) as nat);
        let prev = round(n, edges, (k - 1) as nat);
        let m = edges.len() as int;
        assert forall|v: int| 0 <= v < n && #[trigger] deg[v] != 0 implies round(n, edges, k)[v]
            is None by {
            assert(deg[v] == pending(edges, done, v, m));
            let e = lemma_pending_witness(edges, done, v, m);
            assert(edges[e].0 < n);
            let w = edges[e].0 as int;
            assert(!done[e]);
            assert(deg[w] != 0);
            lemma_fold_none(edges, prev, v, e, m);
        }
    }
}

/// A vector of `n` zeros.
fn zeros_of(n: usize) -> (r: Vec<usize>)
    ensures
        r@.len() == n,
        forall|i: int| 0 <= i < n ==> #[trigger] r@[i] == 0,
{
    let mut out: Vec<usize> = Vec::new();
    let mut i: usize = 0;
    while i < n
        invariant
            i <= n,
            out@.len() == i,
            forall|k: int| 0 <= k < i ==> #[trigger] out@[k] == 0,
        decreases n - i,
    {
        out.push(0);
        i += 1;
    }
    out
}

/// The number of edges into each node.
fn indegrees(n: usize, edges: &Vec<(usize, usize)>) -> (deg: Vec<usize>)
    requires
        graph_ok(n as int, edges@),
    ensures
        deg@.len() == n,
        forall|v: int|
            0 <= v < n ==> #[trigger] deg@[v] == pending(
                edges@,
                Seq::new(edges@.len(), |e: int| false),
                v,
                edges@.len() as int,
            ),
{
    let mut deg = zeros_of(n);
    let ghost none = Seq::new(edges@.len(), |e: int| false);
    let mut e: usize = 0;
    while e < edges.len()
        invariant
            e <= edges.len(),
            deg@.len() == n,
            graph_ok(n as int, edges@),
            none == Seq::new(edges@.len(), |e: int| false),
            forall|v: int| 0 <= v < n ==> #[trigger] deg@[v] == pending(edges@, none, v, e as int),
        decreases edges.len() - e,
    {
        let t = edges[e].1;
        assert(edges@[e as int].1 < n);
        proof {
            lemma_pending_bound(edges@, none, t as int, e as int);
        }
        let old_count = deg[t];
        deg.set(t, old_count + 1);
        e += 1;
    }
    deg
}

/// The queue pass: follows the edges out of each node whose sources are all
/// visited, in first-in first-out order, starting with the nodes that no
/// edge leads to. Returns the levels and, for each node, how many edges into
/// it were not followed: 0 for the visited nodes.
fn queue_pass(n: usize, edges: &Vec<(usize, usize)>) -> (r: (Vec<usize>, Vec<usize>))
    requires
        graph_ok(n as int, edges@),
    ensures
        r.0@.len() == n,
        r.1@.len() == n,
        forall|v: int|
            0 <= v < n ==> (#[trigger] r.1@[v] == 0 <==> settled(n as int, edges@)[v] is Some),
        forall|v: int| 0 <= v < n ==> #[trigger] r.0@[v] as nat == base_levels(n as int, edges@)[v],
        forall|v: int| 0 <= v < n ==> #[trigger] r.0@[v] <= zeros(r.1@, n as int),
{
    let m = edges.len();
    let mut levels = zeros_of(n);
    let mut deg = indegrees(n, edges);
    let ghost mut done = Seq::new(edges@.len(), |e: int| false);
    let ghost mut pos = Seq::new(n as nat, |v: int| -1int);
    let mut queue: Vec<usize> = Vec::new();
    let mut v: usize = 0;
    while v < n
        invariant
            v <= n,
            deg@.len() == n,
            pos.len() == n,
            queue@.len() == zeros(deg@, v as int),
            forall|w: int|
                0 <= w < v && #[trigger] deg@[w] == 0 ==> 0 <= pos[w] < queue@.len()
                    && queue@[pos[w]] == w,
            forall|i: int|
                0 <= i < queue@.len() ==> #[trigger] queue@[i] < v && deg@[queue@[i] as int] == 0
                    && pos[queue@[i] as int] == i,
        decreases n - v,
    {
        if deg[v] == 0 {
            proof {
                pos = pos.update(v as int, queue@.len() as int);
            }
            queue.push(v);
        }
        v += 1;
    }
    proof {
        assert forall|w: int| 0 <= w < n implies #[trigger] levels@[w] == reach(
            edges@,
            done,
            levels@,
            w,
            m as int,
        ) by {
            lemma_reach_nothing(edges@, done, levels@, w, m as int);
        }
    }
    let mut head: usize = 0;
    while head < queue.len()
        invariant
            m == edges@.len(),
            graph_ok(n as int, edges@),
            pass_inv(n as int, edges@, levels@, deg@, queue@, head as int, done, pos, -1, 0),
        decreases n - head,
    {
        proof {
            lemma_zeros_bound(deg@, n as int);
        }
        let u = queue[head];
        head += 1;
        let lu = levels[u];
        let mut j: usize = 0;
        assert(queue@[head - 1] < n && deg@[queue@[head - 1] as int] == 0 && pos[queue@[head
            - 1] as int] == head - 1);
        proof {
            assert forall|e: int| 0 <= e < m implies (#[trigger] done[e] <==> (deg@[edges@[e].0 as int]
                == 0 && pos[edges@[e].0 as int] < head && (edges@[e].0 != u || e < 0))) by {
                assert(edges@[e].0 < n);
                let w = edges@[e].0 as int;
                if deg@[w] == 0 {
                    assert(queue@[pos[w]] == w);
                }
            }
        }
        while j < m
            invariant
                j <= m,
                m == edges@.len(),
                0 < head <= queue@.len(),
                queue@[head - 1] == u,
                u < n,
                lu == levels@[u as int],
                queue@.len() <= n,
                graph_ok(n as int, edges@),
                pass_inv(
                    n as int,
                    edges@,
                    levels@,
                    deg@,
                    queue@,
                    head as int,
                    done,
                    pos,
                    u as int,
                    j as int,
                ),
            decreases m - j,
        {
            if edges[j].0 == u {
                let t = edges[j].1;
                proof {
                    lemma_follow_edge(
                        n as int,
                        edges@,
                        levels@,
                        deg@,
                        queue@,
                        head as int,
                        done,
                        pos,
                        u as int,
                        j as int,
                    );
                }
                assert(t < n);
                if levels[t] < lu + 1 {
                    levels.set(t, lu + 1);
                }
                let count = deg[t];
                if count > 0 {
                    deg.set(t, count - 1);
                    if count == 1 {
                        proof {
                            pos = pos.update(t as int, queue@.len() as int);
                        }
                        queue.push(t);
                    }
                }
                proof {
                    done = done.update(j as int, true);
                }
            }
            j += 1;
        }
    }
    proof {
        let g = n as int;
        lemma_zeros_bound(deg@, g);
        assert forall|v: int| 0 <= v < n implies #[trigger] levels@[v] <= zeros(deg@, g) by {
            assert(levels@[v] <= head);
        }
        lemma_visited_settled(g, edges@, levels@, deg@, queue@, done, pos, n as nat);
        lemma_unvisited_unsettled(g, edges@, levels@, deg@, queue@, done, pos, n as nat);
        let known = settled(g, edges@);
        assert forall|v: int| 0 <= v < n implies (#[trigger] deg@[v] == 0 <==> known[v]
            is Some) by {
            if deg@[v] == 0 {
                assert(pos[v] < queue@.len());
            }
        }
        assert forall|v: int| 0 <= v < n implies #[trigger] levels@[v] as nat == base_levels(
            g,
            edges@,
        )[v] by {
            if deg@[v] == 0 {
                assert(pos[v] < queue@.len());
            } else {
                assert forall|e: int| 0 <= e < m implies (#[trigger] done[e]
                    <==> known[edges@[e].0 as int] is Some) && (done[e]
                    ==> known[edges@[e].0 as int] == Some(levels@[edges@[e].0 as int] as nat)) by {
                    assert(edges@[e].0 < n);
                    let w = edges@[e].0 as int;
                    if deg@[w] == 0 {
                        assert(pos[w] < queue@.len());
                    }
                }
                lemma_reach_known(edges@, known, done, levels@, v, m as int);
                assert(levels@[v] == reach(edges@, done, levels@, v, m as int));
            }
        }
    }
    (levels, deg)
}

/// Nothing is reached while no edge is done.
proof fn lemma_reach_nothing(
    edges: Seq<(usize, usize)>,
    done: Seq<bool>,
    lv: Seq<usize>,
    v: int,
    upto: int,
)
    requires
        0 <= upto <= edges.len(),
        forall|e: int| 0 <= e < upto ==> !#[trigger] done[e],
    ensures
        reach(edges, done, lv, v, upto) == 0,
    decreases upto,
{
    if upto > 0 {
        lemma_reach_nothing(edges, done, lv, v, upto - 1);
    }
}

proof fn lemma_zeros_grow(deg: Seq<usize>, a: int, b: int)
    requires
        0 <= a <= b,
    ensures
        zeros(deg, a) <= zeros(deg, b),
        zeros(deg, b) - zeros(deg, a) <= b - a,
    decreases b,
{
    if a < b {
        lemma_zeros_grow(deg, a, b - 1);
    }
}

/// The best-effort pass: gives each node that is not settled, in declaration
/// order, one more than the highest level that its sources have by then.
fn fallback_pass(n: usize, edges: &Vec<(usize, usize)>, levels: &mut Vec<usize>, deg: &Vec<usize>)
    requires
        graph_ok(n as int, edges@),
        old(levels)@.len() == n,
        deg@.len() == n,
        forall|v: int|
            0 <= v < n ==> (#[trigger] deg@[v] == 0 <==> settled(n as int, edges@)[v] is Some),
        forall|v: int|
            0 <= v < n ==> #[trigger] old(levels)@[v] as nat == base_levels(n as int, edges@)[v],
        forall|v: int| 0 <= v < n ==> #[trigger] old(levels)@[v] <= zeros(deg@, n as int),
    ensures
        final(levels)@.len() == n,
        forall|v: int|
            0 <= v < n ==> #[trigger] final(levels)@[v] as nat == levels_of(n as int, edges@)[v],
        forall|v: int| 0 <= v < n ==> #[trigger] final(levels)@[v] <= n,
{
    let m = edges.len();
    let mut v: usize = 0;
    proof {
        lemma_zeros_grow(deg@, 0, n as int);
    }
    while v < n
        invariant
            v <= n,
            m == edges@.len(),
            graph_ok(n as int, edges@),
            levels@.len() == n,
            deg@.len() == n,
            forall|w: int|
                0 <= w < n ==> (#[trigger] deg@[w] == 0 <==> settled(n as int, edges@)[w] is Some),
            forall|w: int|
                0 <= w < n ==> #[trigger] levels@[w] as nat == fallback(n as int, edges@, v as int)[w],
            forall|w: int|
                0 <= w < n ==> #[trigger] levels@[w] <= zeros(deg@, n as int) + v - zeros(
                    deg@,
                    v as int,
                ),
            fallback(n as int, edges@, v as int).len() == n,
        decreases n - v,
    {
        proof {
            lemma_zeros_grow(deg@, v as int, n as int);
            lemma_zeros_grow(deg@, v + 1, n as int);
        }
        if deg[v] != 0 {
            let ghost cur = fallback(n as int, edges@, v as int);
            let mut best: usize = 0;
            let mut e: usize = 0;
            while e < m
                invariant
                    e <= m,
                    m == edges@.len(),
                    v < n,
                    graph_ok(n as int, edges@),
                    levels@.len() == n,
                    cur.len() == n,
                    forall|w: int| 0 <= w < n ==> #[trigger] levels@[w] as nat == cur[w],
                    forall|w: int|
                        0 <= w < n ==> #[trigger] levels@[w] <= zeros(deg@, n as int) + v - zeros(
                            deg@,
                            v as int,
                        ),
                    zeros(deg@, n as int) + v - zeros(deg@, v as int) < n,
                    best as nat == full_in(edges@, cur, v as int, e as int),
                    best <= zeros(deg@, n as int) + v - zeros(deg@, v as int) + 1,
                decreases m - e,
            {
                if edges[e].1 == v {
                    assert(edges@[e as int].0 < n);
                    let parent = levels[edges[e].0];
                    if best < parent + 1 {
                        best = parent + 1;
                    }
                }
                e += 1;
            }
            levels.set(v, best);
        }
        v += 1;
    }
}

/// The level of each of the `n` nodes of the graph with the edges `edges`.
/// In a graph without a cycle every node is settled, and its level is the
/// length of the longest path that ends in it.
pub fn compute_levels(n: usize, edges: &Vec<(usize, usize)>) -> (levels: Vec<usize>)
    requires
        graph_ok(n as int, edges@),
    ensures
        levels@.len() == n,
        forall|v: int| 0 <= v < n ==> #[trigger] levels@[v] as nat == levels_of(n as int, edges@)[v],
        forall|v: int| 0 <= v < n ==> #[trigger] levels@[v] <= n,
{
    let (mut levels, deg) = queue_pass(n, edges);
    fallback_pass(n, edges, &mut levels, &deg);
    levels
}

// ----- levels in a graph without a cycle -----
/// The number of nodes among the first `upto` whose rank is below `x`.
pub open spec fn below(rank: Seq<nat>, x: nat, upto: int) -> nat
    decreases upto,
{
    if upto <= 0 {
        0
    } else {
        below(rank, x, upto - 1) + if rank[upto - 1] < x {
            1nat
        } else {
            0nat
        }
    }
}

proof fn lemma_below_order(rank: Seq<nat>, x: nat, y: nat, upto: int)
    requires
        x <= y,
        0 <= upto <= rank.len(),
    ensures
        below(rank, x, upto) <= below(rank, y, upto),
        forall|u: int|
            0 <= u < upto && x <= #[trigger] rank[u] < y ==> below(rank, x, upto) < below(
                rank,
                y,
                upto,
            ),
    decreases upto,
{
    if upto > 0 {
        lemma_below_order(rank, x, y, upto - 1);
    }
}

proof fn lemma_below_bound(rank: Seq<nat>, x: nat, upto: int)
    requires
        0 <= upto <= rank.len(),
    ensures
        below(rank, x, upto) <= upto,
        forall|v: int| 0 <= v < upto && #[trigger] rank[v] >= x ==> below(rank, x, upto) < upto,
    decreases upto,
{
    if upto > 0 {
        lemma_below_bound(rank, x, upto - 1);
    }
}

/// `fold_in` gives a level where every edge into `v` comes from a node with one.
proof fn lemma_fold_some(edges: Seq<(usize, usize)>, prev: Seq<Option<nat>>, v: int, upto: int)
    requires
        0 <= upto <= edges.len(),
        forall|e: int|
            0 <= e < upto && (#[trigger] edges[e]).1 == v ==> prev[edges[e].0 as int] is Some,
    ensures
        fold_in(edges, prev, v, upto) is Some,
        forall|e: int|
            0 <= e < upto && (#[trigger] edges[e]).1 == v ==> fold_in(edges, prev, v, upto)->Some_0
                > prev[edges[e].0 as int]->Some_0,
    decreases upto,
{
    if upto > 0 {
        lemma_fold_some(edges, prev, v, upto - 1);
    }
}

/// Where `fold_in` gives a level, every edge into `v` comes from a node with one.
proof fn lemma_fold_sources(edges: Seq<(usize, usize)>, prev: Seq<Option<nat>>, v: int, upto: int)
    requires
        0 <= upto <= edges.len(),
        fold_in(edges, prev, v, upto) is Some,
    ensures
        forall|e: int|
            0 <= e < upto && (#[trigger] edges[e]).1 == v ==> prev[edges[e].0 as int] is Some,
    decreases upto,
{
    if upto > 0 {
        lemma_fold_sources(edges, prev, v, upto - 1);
    }
}

proof fn lemma_fold_frame(
    edges: Seq<(usize, usize)>,
    p1: Seq<Option<nat>>,
    p2: Seq<Option<nat>>,
    v: int,
    upto: int,
)
    requires
        0 <= upto <= edges.len(),
        forall|e: int|
            0 <= e < upto && (#[trigger] edges[e]).1 == v ==> p1[edges[e].0 as int]
                == p2[edges[e].0 as int],
    ensures
        fold_in(edges, p1, v, upto) == fold_in(edges, p2, v, upto),
    decreases upto,
{
    if upto > 0 {
        lemma_fold_frame(edges, p1, p2, v, upto - 1);
    }
}

/// A node that is settled within `k` rounds keeps its level in every later round.
pub proof fn lemma_round_stable(n: int, edges: Seq<(usize, usize)>, k: nat, later: nat)
    requires
        0 <= n,
        graph_ok(n, edges),
        k <= later,
    ensures
        forall|v: int|
            0 <= v < n && (#[trigger] round(n, edges, k)[v]) is Some ==> round(n, edges, later)[v]
                == round(n, edges, k)[v],
    decreases later, k,
{
    let m = edges.len() as int;
    if k < later {
        lemma_round_stable(n, edges, k, (later - 1) as nat);
        if later - 1 > 0 {
            lemma_round_stable(n, edges, (later - 2) as nat, (later - 1) as nat);
        }
        assert forall|v: int|
            0 <= v < n && (#[trigger] round(n, edges, k)[v]) is Some implies round(
            n,
            edges,
            later,
        )[v] == round(n, edges, k)[v] by {
            let mid = (later - 1) as nat;
            assert(round(n, edges, mid)[v] == round(n, edges, k)[v]);
            assert(mid > 0);
            let p1 = round(n, edges, (mid - 1) as nat);
            let p2 = round(n, edges, mid);
            lemma_fold_sources(edges, p1, v, m);
            assert forall|e: int| 0 <= e < m && (#[trigger] edges[e]).1 == v implies p1[edges[e].0 as int]
                == p2[edges[e].0 as int] by {
                assert(edges[e].0 < n);
                assert(round(n, edges, (mid - 1) as nat)[edges[e].0 as int] is Some);
            }
            lemma_fold_frame(edges, p1, p2, v, m);
        }
    }
}

/// In a graph without a cycle, a node with fewer than `k` nodes of lower
/// rank is settled within `k` rounds.
proof fn lemma_settles(n: int, edges: Seq<(usize, usize)>, rank: Seq<nat>, k: nat)
    requires
        0 <= n,
        graph_ok(n, edges),
        topological(n, edges, rank),
    ensures
        forall|v: int|
            0 <= v < n && below(rank, #[trigger] rank[v], n) < k ==> round(n, edges, k)[v] is Some,
    decreases k,
{
    if k > 0 {
        lemma_settles(n, edges, rank, (k - 1) as nat);
        let prev = round(n, edges, (k - 1) as nat);
        let m = edges.len() as int;
        assert forall|v: int| 0 <= v < n && below(rank, #[trigger] rank[v], n) < k implies round(
            n,
            edges,
            k,
        )[v] is Some by {
            assert forall|e: int| 0 <= e < m && (#[trigger] edges[e]).1 == v implies prev[edges[e].0 as int]
                is Some by {
                assert(edges[e].0 < n);
                let w = edges[e].0 as int;
                lemma_below_order(rank, rank[w], rank[v], n);
                assert(below(rank, rank[w], n) < below(rank, rank[v], n));
            }
            lemma_fold_some(edges, prev, v, m);
        }
    }
}

/// Where every node is settled, the best-effort pass changes nothing.
proof fn lemma_fallback_idle(n: int, edges: Seq<(usize, usize)>, upto: int)
    requires
        0 <= upto <= n,
        forall|v: int| 0 <= v < n ==> (#[trigger] settled(n, edges)[v]) is Some,
    ensures
        fallback(n, edges, upto) == base_levels(n, edges),
    decreases upto,
{
    if upto > 0 {
        lemma_fallback_idle(n, edges, upto - 1);
    }
}

/// In a graph without a cycle every edge leads to a higher level: if a
/// numbering of the nodes exists along which every edge leads upwards, then
/// the level of each edge's target exceeds that of its source.
pub proof fn lemma_levels_increase(n: int, edges: Seq<(usize, usize)>, rank: Seq<nat>)
    requires
        0 <= n,
        graph_ok(n, edges),
        topological(n, edges, rank),
    ensures
        forall|v: int| 0 <= v < n ==> (#[trigger] settled(n, edges)[v]) is Some,
        forall|e: int|
            0 <= e < edges.len() ==> levels_of(n, edges)[(#[trigger] edges[e]).0 as int] < levels_of(
                n,
                edges,
            )[edges[e].1 as int],
{
    let m = edges.len() as int;
    lemma_settles(n, edges, rank, n as nat);
    assert forall|v: int| 0 <= v < n implies (#[trigger] settled(n, edges)[v]) is Some by {
        lemma_below_bound(rank, rank[v], n);
        assert(rank[v] >= rank[v]);
    }
    lemma_fallback_idle(n, edges, n);
    assert forall|e: int| 0 <= e < m implies levels_of(n, edges)[(#[trigger] edges[e]).0 as int]
        < levels_of(n, edges)[edges[e].1 as int] by {
        let u = edges[e].0 as int;
        let v = edges[e].1 as int;
        assert(u < n && v < n);
        assert(settled(n, edges)[v] is Some);
        assert(n > 0);
        let prev = round(n, edges, (n - 1) as nat);
        lemma_fold_sources(edges, prev, v, m);
        assert(prev[u] is Some);
        lemma_fold_some(edges, prev, v, m);
        lemma_round_stable(n, edges, (n - 1) as nat, n as nat);
        assert(round(n, edges, n as nat)[u] == prev[u]);
    }
}

} // verus!
