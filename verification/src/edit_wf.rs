//! Structural edits keep a diagram valid.

use vstd::prelude::*;
use crate::definition::edge_id;
use crate::edit::{
    child_survives, compacted, edges_not_named, edges_off_node, ids_without, kept_children, rank,
    relinked, stripped, survives, without_node,
};
use crate::model::{distinct, subgraph_ids, DiagramView, EdgeView, SubgraphView};
use crate::paths::{lemma_owner_none, lemma_owner_unique, owner_path, path_of};
use crate::text::{lemma_position, position};

verus! {

/// Each edge that is kept is one of the edges, and touches neither end at `id`.
pub proof fn lemma_off_node_from(edges: Seq<EdgeView>, id: Seq<char>, upto: int, k: int) -> (e: int)
    requires
        0 <= upto <= edges.len(),
        0 <= k < edges_off_node(edges, id, upto).len(),
    ensures
        0 <= e < upto,
        edges_off_node(edges, id, upto)[k] == edges[e],
        edges[e].from != id && edges[e].to != id,
    decreases upto,
{
    if !(edges[upto - 1].from == id || edges[upto - 1].to == id) && k == edges_off_node(
        edges,
        id,
        upto - 1,
    ).len() {
        upto - 1
    } else {
        lemma_off_node_from(edges, id, upto - 1, k)
    }
}

/// Each edge that is kept is one of the edges.
pub proof fn lemma_not_named_from(edges: Seq<EdgeView>, id: Seq<char>, upto: int, k: int) -> (e:
    int)
    requires
        0 <= upto <= edges.len(),
        0 <= k < edges_not_named(edges, id, upto).len(),
    ensures
        0 <= e < upto,
        edges_not_named(edges, id, upto)[k] == edges[e],
    decreases upto,
{
    if edge_id(edges[upto - 1]) != id && k == edges_not_named(edges, id, upto - 1).len() {
        upto - 1
    } else {
        lemma_not_named_from(edges, id, upto - 1, k)
    }
}

/// Removing edges by identifier keeps a diagram valid.
pub proof fn lemma_without_edges_wf(d: DiagramView, id: Seq<char>)
    requires
        d.wf(),
    ensures
        (DiagramView { edges: edges_not_named(d.edges, id, d.edges.len() as int), ..d }).wf(),
{
    let kept = edges_not_named(d.edges, id, d.edges.len() as int);
    let d2 = DiagramView { edges: kept, ..d };
    assert forall|e: int| 0 <= e < d2.edges.len() implies d2.order.contains(
        #[trigger] d2.edges[e].from,
    ) && d2.order.contains(d2.edges[e].to) by {
        let src = lemma_not_named_from(d.edges, id, d.edges.len() as int, e);
        let from = d.edges[src].from;
        assert(d.order.contains(from));
    }
    assert forall|s: int| 0 <= s < d2.subgraphs.len() implies d2.subgraph_wf(s) by {
        assert(d.subgraph_wf(s));
    }
    assert(d2.subgraphs == d.subgraphs);
    assert(d2.order == d.order);
    assert forall|s: int, k: int|
        0 <= s < d2.subgraphs.len() && 0 <= k
            < d2.subgraphs[s].nodes.len() implies d2.order.contains(
        #[trigger] d2.subgraphs[s].nodes[k],
    ) by {
        assert(d.order.contains(d.subgraphs[s].nodes[k]));
    }
    assert forall|s: int, k: int, t: int, l: int|
        0 <= s < d2.subgraphs.len() && 0 <= k < d2.subgraphs[s].nodes.len() && 0 <= t
            < d2.subgraphs.len() && 0 <= l < d2.subgraphs[t].nodes.len()
            && #[trigger] d2.subgraphs[s].nodes[k]
            == #[trigger] d2.subgraphs[t].nodes[l] implies s == t && k == l by {
        assert(d.subgraphs[s].nodes[k] == d.subgraphs[t].nodes[l]);
    }
}

/// Each id that is kept is one of the ids, and differs from `id`.
proof fn lemma_without_from(ids: Seq<Seq<char>>, id: Seq<char>, upto: int, l: int) -> (src: int)
    requires
        0 <= upto <= ids.len(),
        0 <= l < ids_without(ids, id, upto).len(),
    ensures
        0 <= src < upto,
        ids_without(ids, id, upto)[l] == ids[src],
        ids[src] != id,
        l == ids_without(ids, id, src).len(),
    decreases upto,
{
    if ids[upto - 1] != id && l == ids_without(ids, id, upto - 1).len() {
        upto - 1
    } else {
        lemma_without_from(ids, id, upto - 1, l)
    }
}

proof fn lemma_rank_order(subs: Seq<SubgraphView>, a: int, b: int)
    requires
        0 <= a <= b,
    ensures
        rank(subs, a) <= rank(subs, b),
        rank(subs, b) <= b,
        a < b && survives(subs, a) ==> rank(subs, a) < rank(subs, b),
    decreases b,
{
    if a < b {
        lemma_rank_order(subs, a, b - 1);
    } else if b > 0 {
        lemma_rank_order(subs, 0, b - 1);
    }
}

proof fn lemma_compact_len(subs: Seq<SubgraphView>, upto: int)
    requires
        0 <= upto,
    ensures
        compacted(subs, upto).len() == rank(subs, upto),
    decreases upto,
{
    if upto > 0 {
        lemma_compact_len(subs, upto - 1);
    }
}

/// A group that is kept stands at its rank in the new arena.
proof fn lemma_compact_at(subs: Seq<SubgraphView>, upto: int, s: int)
    requires
        0 <= s < upto,
        survives(subs, s),
    ensures
        rank(subs, s) < compacted(subs, upto).len(),
        compacted(subs, upto)[rank(subs, s) as int] == relinked(subs, s),
    decreases upto,
{
    lemma_compact_len(subs, upto);
    lemma_compact_len(subs, upto - 1);
    lemma_rank_order(subs, s, upto);
    if s < upto - 1 {
        lemma_compact_at(subs, upto - 1, s);
    }
}

/// Each record of the new arena is that of a group that is kept.
proof fn lemma_compact_source(subs: Seq<SubgraphView>, upto: int, k: int) -> (s: int)
    requires
        0 <= upto,
        0 <= k < compacted(subs, upto).len(),
    ensures
        0 <= s < upto,
        survives(subs, s),
        rank(subs, s) == k,
        compacted(subs, upto)[k] == relinked(subs, s),
    decreases upto,
{
    lemma_compact_len(subs, upto - 1);
    if survives(subs, upto - 1) && k == compacted(subs, upto - 1).len() {
        upto - 1
    } else {
        lemma_compact_source(subs, upto - 1, k)
    }
}

/// A group with a child that is kept is kept.
proof fn lemma_child_kept(subs: Seq<SubgraphView>, s: int, k: int, upto: int)
    requires
        0 <= s < subs.len(),
        0 <= k < upto <= subs[s].children.len(),
        s < subs[s].children[k] < subs.len(),
        survives(subs, subs[s].children[k] as int),
    ensures
        child_survives(subs, s, upto),
    decreases upto,
{
    if k < upto - 1 {
        lemma_child_kept(subs, s, k, upto - 1);
    }
}

proof fn lemma_kept_children_grow(subs: Seq<SubgraphView>, s: int, a: int, b: int)
    requires
        0 <= a <= b,
    ensures
        kept_children(subs, s, a).len() <= kept_children(subs, s, b).len(),
    decreases b,
{
    if a < b {
        lemma_kept_children_grow(subs, s, a, b - 1);
    }
}

/// A child that is kept is listed, by its rank, among the kept children.
proof fn lemma_kept_children_has(subs: Seq<SubgraphView>, s: int, k: int, upto: int)
    requires
        0 <= k < upto <= subs[s].children.len(),
        survives(subs, subs[s].children[k] as int),
    ensures
        kept_children(subs, s, upto).contains(rank(subs, subs[s].children[k] as int) as usize),
    decreases upto,
{
    let c = subs[s].children[upto - 1] as int;
    if k < upto - 1 {
        lemma_kept_children_has(subs, s, k, upto - 1);
        let x = rank(subs, subs[s].children[k] as int) as usize;
        let shorter = kept_children(subs, s, upto - 1);
        let j = choose|j: int| 0 <= j < shorter.len() && #[trigger] shorter[j] == x;
        assert(kept_children(subs, s, upto)[j] == x);
    } else {
        let list = kept_children(subs, s, upto);
        assert(list[list.len() - 1] == rank(subs, c) as usize);
    }
}

/// Each kept child is the rank of a child that is kept.
proof fn lemma_kept_children_from(subs: Seq<SubgraphView>, s: int, upto: int, j: int) -> (k: int)
    requires
        0 <= upto <= subs[s].children.len(),
        0 <= j < kept_children(subs, s, upto).len(),
    ensures
        0 <= k < upto,
        survives(subs, subs[s].children[k] as int),
        kept_children(subs, s, upto)[j] == rank(subs, subs[s].children[k] as int) as usize,
        j == kept_children(subs, s, k).len(),
    decreases upto,
{
    if survives(subs, subs[s].children[upto - 1] as int) && j == kept_children(
        subs,
        s,
        upto - 1,
    ).len() {
        upto - 1
    } else {
        lemma_kept_children_from(subs, s, upto - 1, j)
    }
}

/// Removing a node keeps a diagram valid.
pub proof fn lemma_without_node_wf(d: DiagramView, id: Seq<char>)
    requires
        d.wf(),
        d.order.contains(id),
        d.subgraphs.len() <= usize::MAX,
    ensures
        without_node(d, id).wf(),
{
    let d2 = without_node(d, id);
    let i = position(d.order, id);
    lemma_position(d.order, id);
    let subs = stripped(d.subgraphs, id);
    let n = subs.len() as int;
    let arena = compacted(subs, n);
    assert(d2.subgraphs == arena);
    lemma_compact_len(subs, n);
    lemma_rank_order(subs, 0, n);
    // nodes
    assert(distinct(d2.order)) by {
        assert forall|a: int, b: int| 0 <= a < b < d2.order.len() implies d2.order[a]
            != d2.order[b] by {
            let a0 = if a < i {
                a
            } else {
                a + 1
            };
            let b0 = if b < i {
                b
            } else {
                b + 1
            };
            assert(d2.order[a] == d.order[a0] && d2.order[b] == d.order[b0]);
        }
    }
    assert forall|x: Seq<char>| x != id && d.order.contains(x) implies d2.order.contains(x) by {
        let k = choose|k: int| 0 <= k < d.order.len() && #[trigger] d.order[k] == x;
        let k2 = if k < i {
            k
        } else {
            k - 1
        };
        assert(d2.order[k2] == x);
    }
    // edges
    assert forall|e: int| 0 <= e < d2.edges.len() implies d2.order.contains(
        #[trigger] d2.edges[e].from,
    ) && d2.order.contains(d2.edges[e].to) by {
        let src = lemma_off_node_from(d.edges, id, d.edges.len() as int, e);
        let from = d.edges[src].from;
        assert(d.order.contains(from));
        assert(d.order.contains(d.edges[src].to));
    }
    // group ids
    assert(distinct(subgraph_ids(arena))) by {
        assert forall|a: int, b: int| 0 <= a < b < subgraph_ids(arena).len() implies subgraph_ids(
            arena,
        )[a] != subgraph_ids(arena)[b] by {
            let sa = lemma_compact_source(subs, n, a);
            let sb = lemma_compact_source(subs, n, b);
            if sa >= sb {
                lemma_rank_order(subs, sb, sa);
            }
            assert(subgraph_ids(d.subgraphs)[sa] != subgraph_ids(d.subgraphs)[sb]);
        }
    }
    // links
    assert forall|k: int| 0 <= k < arena.len() implies d2.subgraph_wf(k) by {
        let s = lemma_compact_source(subs, n, k);
        let g = arena[k];
        assert(d.subgraph_wf(s));
        let g0 = d.subgraphs[s];
        assert(subs[s].children == g0.children);
        assert(subs[s].parent == g0.parent);
        match g0.parent {
            Some(p) => {
                let p0 = p as int;
                let kids = d.subgraphs[p0].children;
                let at = choose|at: int| 0 <= at < kids.len() && #[trigger] kids[at] == s as usize;
                assert(subs[p0].children == d.subgraphs[p0].children);
                lemma_child_kept(subs, p0, at, subs[p0].children.len() as int);
                assert(survives(subs, p0));
                lemma_rank_order(subs, p0, s);
                lemma_compact_at(subs, n, p0);
                lemma_kept_children_has(subs, p0, at, subs[p0].children.len() as int);
                assert(rank(subs, p0) as usize == rank(subs, p0));
                assert(rank(subs, s) as usize == k);
            },
            None => {},
        }
        assert forall|j: int| 0 <= j < g.children.len() implies k < #[trigger] g.children[j]
            < arena.len() && arena[g.children[j] as int].parent == Some(k as usize) by {
            let src = lemma_kept_children_from(subs, s, subs[s].children.len() as int, j);
            let c = subs[s].children[src] as int;
            assert(s < g0.children[src] < d.subgraphs.len());
            assert(d.subgraphs[g0.children[src] as int].parent == Some(s as usize));
            lemma_rank_order(subs, s, c);
            lemma_rank_order(subs, c, n);
            lemma_compact_at(subs, n, c);
            assert(subs[c].parent == Some(s as usize));
        }
        assert forall|j: int, l: int| 0 <= j < l < g.children.len() implies g.children[j]
            < g.children[l] by {
            let sj = lemma_kept_children_from(subs, s, subs[s].children.len() as int, j);
            let sl = lemma_kept_children_from(subs, s, subs[s].children.len() as int, l);
            if sj >= sl {
                lemma_kept_children_grow(subs, s, sl, sj);
            }
            let cj = subs[s].children[sj] as int;
            let cl = subs[s].children[sl] as int;
            assert(g0.children[sj] < g0.children[sl]);
            assert(s < g0.children[sl] < d.subgraphs.len());
            lemma_rank_order(subs, cj, cl);
            lemma_rank_order(subs, cl, n);
        }
        assert forall|t: int| 0 <= t < k implies (#[trigger] arena[t]).order < g.order by {
            let st = lemma_compact_source(subs, n, t);
            if st >= s {
                lemma_rank_order(subs, s, st);
            }
            assert(d.subgraphs[st].order < d.subgraphs[s].order);
        }
    }
    // members
    assert forall|k: int, l: int|
        0 <= k < arena.len() && 0 <= l < arena[k].nodes.len() implies d2.order.contains(
        #[trigger] arena[k].nodes[l],
    ) by {
        let s = lemma_compact_source(subs, n, k);
        let own = d.subgraphs[s].nodes;
        let src = lemma_without_from(own, id, own.len() as int, l);
        assert(d.order.contains(d.subgraphs[s].nodes[src]));
    }
    assert forall|k: int, l: int, t: int, m: int|
        0 <= k < arena.len() && 0 <= l < arena[k].nodes.len() && 0 <= t < arena.len() && 0 <= m
            < arena[t].nodes.len() && #[trigger] arena[k].nodes[l]
            == #[trigger] arena[t].nodes[m] implies k == t && l == m by {
        let s = lemma_compact_source(subs, n, k);
        let u = lemma_compact_source(subs, n, t);
        let own_s = d.subgraphs[s].nodes;
        let own_u = d.subgraphs[u].nodes;
        let ls = lemma_without_from(own_s, id, own_s.len() as int, l);
        let mu = lemma_without_from(own_u, id, own_u.len() as int, m);
        assert(d.subgraphs[s].nodes[ls] == d.subgraphs[u].nodes[mu]);
        assert(s == u && ls == mu);
    }
}

/// What differs from `id` stays listed when `id` is taken out.
proof fn lemma_without_keeps(ids: Seq<Seq<char>>, id: Seq<char>, x: Seq<char>, upto: int)
    requires
        0 <= upto <= ids.len(),
        x != id,
    ensures
        ids_without(ids, id, upto).contains(x) <==> ids.take(upto).contains(x),
    decreases upto,
{
    let kept = ids_without(ids, id, upto);
    if upto > 0 {
        lemma_without_keeps(ids, id, x, upto - 1);
        let shorter = ids_without(ids, id, upto - 1);
        let last = ids[upto - 1];
        if ids.take(upto).contains(x) {
            let k = choose|k: int| 0 <= k < upto && #[trigger] ids.take(upto)[k] == x;
            if k < upto - 1 {
                assert(ids.take(upto - 1)[k] == x);
                let j = choose|j: int| 0 <= j < shorter.len() && #[trigger] shorter[j] == x;
                assert(kept[j] == x);
            } else {
                assert(kept[kept.len() - 1] == x);
            }
        }
        if kept.contains(x) {
            let j = choose|j: int| 0 <= j < kept.len() && #[trigger] kept[j] == x;
            if j < shorter.len() {
                assert(shorter[j] == x);
                let k = choose|k: int| 0 <= k < upto - 1 && #[trigger] ids.take(upto - 1)[k] == x;
                assert(ids.take(upto)[k] == x);
            } else {
                assert(ids.take(upto)[upto - 1] == x);
            }
        }
    } else {
        assert(ids.take(0).len() == 0);
    }
}

/// A group that is kept has, in the new arena, the path that it had.
proof fn lemma_path_compact(d: DiagramView, id: Seq<char>, s: int)
    requires
        d.wf(),
        d.subgraphs.len() <= usize::MAX,
        0 <= s < d.subgraphs.len(),
        survives(stripped(d.subgraphs, id), s),
    ensures
        path_of(
            compacted(stripped(d.subgraphs, id), d.subgraphs.len() as int),
            rank(stripped(d.subgraphs, id), s) as int,
        ) == path_of(d.subgraphs, s),
    decreases s,
{
    let subs = stripped(d.subgraphs, id);
    let n = subs.len() as int;
    let arena = compacted(subs, n);
    lemma_compact_at(subs, n, s);
    lemma_rank_order(subs, s, n);
    assert(d.subgraph_wf(s));
    assert(subs[s].parent == d.subgraphs[s].parent);
    assert(subs[s].id == d.subgraphs[s].id);
    match d.subgraphs[s].parent {
        Some(p) => {
            let p0 = p as int;
            let kids = d.subgraphs[p0].children;
            let at = choose|at: int| 0 <= at < kids.len() && #[trigger] kids[at] == s as usize;
            assert(subs[p0].children == d.subgraphs[p0].children);
            lemma_child_kept(subs, p0, at, subs[p0].children.len() as int);
            lemma_rank_order(subs, p0, s);
            lemma_path_compact(d, id, p0);
            assert(rank(subs, p0) as usize == rank(subs, p0));
        },
        None => {},
    }
}

/// Removing a node keeps a diagram fully valid.
pub proof fn lemma_without_node_valid(d: DiagramView, id: Seq<char>)
    requires
        d.valid(),
        d.order.contains(id),
        d.subgraphs.len() <= usize::MAX,
    ensures
        without_node(d, id).valid(),
{
    lemma_without_node_wf(d, id);
    let d2 = without_node(d, id);
    let i0 = position(d.order, id);
    lemma_position(d.order, id);
    let subs = stripped(d.subgraphs, id);
    let n = subs.len() as int;
    let arena = compacted(subs, n);
    lemma_compact_len(subs, n);
    assert forall|j: int| 0 <= j < d2.order.len() implies #[trigger] d2.node_membership[j]
        == owner_path(d2.subgraphs, d2.order[j], d2.subgraphs.len() as int) by {
        let j0 = if j < i0 {
            j
        } else {
            j + 1
        };
        let x = d.order[j0];
        assert(d2.order[j] == x);
        assert(d2.node_membership[j] == d.node_membership[j0]);
        assert(d.node_membership[j0] == owner_path(d.subgraphs, d.order[j0], n));
        assert(x != id) by {
            if x == id {
                assert(d.order[j0] == d.order[i0]);
            }
        }
        if exists|s: int| 0 <= s < n && (#[trigger] d.subgraphs[s]).nodes.contains(x) {
            let s = choose|s: int| 0 <= s < n && (#[trigger] d.subgraphs[s]).nodes.contains(x);
            let own = d.subgraphs[s].nodes;
            let k = choose|k: int| 0 <= k < own.len() && #[trigger] own[k] == x;
            assert forall|t: int| 0 <= t < n && t != s implies !(
            #[trigger] d.subgraphs[t]).nodes.contains(x) by {
                if d.subgraphs[t].nodes.contains(x) {
                    let other = d.subgraphs[t].nodes;
                    let l = choose|l: int| 0 <= l < other.len() && #[trigger] other[l] == x;
                    assert(d.subgraphs[s].nodes[k] == d.subgraphs[t].nodes[l]);
                }
            }
            lemma_owner_unique(d.subgraphs, x, s, n);
            lemma_without_keeps(own, id, x, own.len() as int);
            assert(own.take(own.len() as int) =~= own);
            assert(subs[s].nodes.contains(x));
            let kept = subs[s].nodes;
            let w = choose|w: int| 0 <= w < kept.len() && #[trigger] kept[w] == x;
            assert(survives(subs, s));
            lemma_compact_at(subs, n, s);
            let r = rank(subs, s) as int;
            assert(arena[r].nodes == subs[s].nodes);
            assert forall|t: int| 0 <= t < arena.len() && t != r implies !(
            #[trigger] arena[t]).nodes.contains(x) by {
                if arena[t].nodes.contains(x) {
                    let other = arena[t].nodes;
                    let l = choose|l: int| 0 <= l < other.len() && #[trigger] other[l] == x;
                    assert(d2.subgraphs[r].nodes[w] == d2.subgraphs[t].nodes[l]);
                }
            }
            lemma_owner_unique(arena, x, r, arena.len() as int);
            lemma_path_compact(d, id, s);
        } else {
            assert forall|t: int| 0 <= t < n implies !(#[trigger] d.subgraphs[t]).nodes.contains(
                x,
            ) by {}
            lemma_owner_none(d.subgraphs, x, n);
            assert forall|t: int| 0 <= t < arena.len() implies !(#[trigger] arena[t]).nodes.contains(
                x,
            ) by {
                let s = lemma_compact_source(subs, n, t);
                let own = d.subgraphs[s].nodes;
                lemma_without_keeps(own, id, x, own.len() as int);
                assert(own.take(own.len() as int) =~= own);
                assert(!d.subgraphs[s].nodes.contains(x));
            }
            lemma_owner_none(arena, x, arena.len() as int);
        }
    }
}

/// Removing edges by identifier keeps a diagram fully valid.
pub proof fn lemma_without_edges_valid(d: DiagramView, id: Seq<char>)
    requires
        d.valid(),
    ensures
        (DiagramView { edges: edges_not_named(d.edges, id, d.edges.len() as int), ..d }).valid(),
{
    lemma_without_edges_wf(d, id);
    let d2 = DiagramView { edges: edges_not_named(d.edges, id, d.edges.len() as int), ..d };
    assert forall|i: int| 0 <= i < d2.order.len() implies #[trigger] d2.node_membership[i]
        == owner_path(d2.subgraphs, d2.order[i], d2.subgraphs.len() as int) by {
        assert(d.node_membership[i] == owner_path(d.subgraphs, d.order[i], d.subgraphs.len() as int));
    }
}

} // verus!
