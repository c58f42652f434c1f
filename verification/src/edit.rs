//! Structural edits of a diagram: removing a node, removing edges.

use vstd::prelude::*;
use crate::definition::{edge_id, edge_identifier};
use crate::edit_wf::{
    lemma_without_edges_valid, lemma_without_edges_wf, lemma_without_node_valid,
    lemma_without_node_wf,
};
use crate::model::{
    edge_views, subgraph_views, Diagram, DiagramView, Edge, EdgeView, Subgraph, SubgraphView,
};
use crate::text::{chars_of, position, position_of, same_chars, string_of, texts};

verus! {

/// The first `upto` of `ids` without every occurrence of `id`.
pub open spec fn ids_without(ids: Seq<Seq<char>>, id: Seq<char>, upto: int) -> Seq<Seq<char>>
    decreases upto,
{
    if upto <= 0 {
        Seq::empty()
    } else if ids[upto - 1] == id {
        ids_without(ids, id, upto - 1)
    } else {
        ids_without(ids, id, upto - 1).push(ids[upto - 1])
    }
}

/// The first `upto` of `edges` without those that start or end at `id`.
pub open spec fn edges_off_node(edges: Seq<EdgeView>, id: Seq<char>, upto: int) -> Seq<EdgeView>
    decreases upto,
{
    if upto <= 0 {
        Seq::empty()
    } else if edges[upto - 1].from == id || edges[upto - 1].to == id {
        edges_off_node(edges, id, upto - 1)
    } else {
        edges_off_node(edges, id, upto - 1).push(edges[upto - 1])
    }
}

/// The first `upto` of `edges` without those whose identifier is `id`.
pub open spec fn edges_not_named(edges: Seq<EdgeView>, id: Seq<char>, upto: int) -> Seq<EdgeView>
    decreases upto,
{
    if upto <= 0 {
        Seq::empty()
    } else if edge_id(edges[upto - 1]) == id {
        edges_not_named(edges, id, upto - 1)
    } else {
        edges_not_named(edges, id, upto - 1).push(edges[upto - 1])
    }
}

/// The arena `subs` with the node `id` taken out of every group.
pub open spec fn stripped(subs: Seq<SubgraphView>, id: Seq<char>) -> Seq<SubgraphView> {
    Seq::new(
        subs.len(),
        |s: int|
            SubgraphView {
                nodes: ids_without(subs[s].nodes, id, subs[s].nodes.len() as int),
                ..subs[s]
            },
    )
}

/// Whether the group `s` is kept: it holds a node, or a child that is kept.
pub open spec fn survives(subs: Seq<SubgraphView>, s: int) -> bool
    decreases subs.len() - s, 1int, 0int,
{
    0 <= s < subs.len() && (subs[s].nodes.len() > 0 || child_survives(
        subs,
        s,
        subs[s].children.len() as int,
    ))
}

/// Whether one of the first `upto` children of the group `s` is kept.
pub open spec fn child_survives(subs: Seq<SubgraphView>, s: int, upto: int) -> bool
    decreases subs.len() - s, 0int, upto,
{
    if 0 <= s < subs.len() && 0 < upto <= subs[s].children.len() {
        let c = subs[s].children[upto - 1] as int;
        child_survives(subs, s, upto - 1) || (s < c < subs.len() && survives(subs, c))
    } else {
        false
    }
}

/// The number of groups before `s` that are kept: the new index of `s`.
pub open spec fn rank(subs: Seq<SubgraphView>, s: int) -> nat
    decreases s,
{
    if s <= 0 {
        0
    } else {
        rank(subs, s - 1) + if survives(subs, s - 1) {
            1nat
        } else {
            0nat
        }
    }
}

/// The new indices of those among the first `upto` children of `s` that are kept.
pub open spec fn kept_children(subs: Seq<SubgraphView>, s: int, upto: int) -> Seq<usize>
    decreases upto,
{
    if upto <= 0 {
        Seq::empty()
    } else {
        let c = subs[s].children[upto - 1] as int;
        if survives(subs, c) {
            kept_children(subs, s, upto - 1).push(rank(subs, c) as usize)
        } else {
            kept_children(subs, s, upto - 1)
        }
    }
}

/// The record of the kept group `s` in the new arena.
pub open spec fn relinked(subs: Seq<SubgraphView>, s: int) -> SubgraphView {
    SubgraphView {
        children: kept_children(subs, s, subs[s].children.len() as int),
        parent: match subs[s].parent {
            Some(p) => Some(rank(subs, p as int) as usize),
            None => None,
        },
        ..subs[s]
    }
}

/// The new arena made of those among the first `upto` groups that are kept.
pub open spec fn compacted(subs: Seq<SubgraphView>, upto: int) -> Seq<SubgraphView>
    decreases upto,
{
    if upto <= 0 {
        Seq::empty()
    } else if survives(subs, upto - 1) {
        compacted(subs, upto - 1).push(relinked(subs, upto - 1))
    } else {
        compacted(subs, upto - 1)
    }
}

/// The diagram `d` without the node `id`: its definition, its membership
/// path and its edges are gone, it is listed in no group, and a group
/// that is left without nodes and without kept children is gone too.
pub open spec fn without_node(d: DiagramView, id: Seq<char>) -> DiagramView {
    let i = position(d.order, id);
    let subs = stripped(d.subgraphs, id);
    DiagramView {
        direction: d.direction,
        nodes: d.nodes.remove(i),
        order: d.order.remove(i),
        edges: edges_off_node(d.edges, id, d.edges.len() as int),
        subgraphs: compacted(subs, subs.len() as int),
        node_membership: d.node_membership.remove(i),
    }
}

/// A copy of `e`.
fn copy_edge(e: &Edge) -> (r: Edge)
    ensures
        r@ == e@,
{
    Edge {
        from: e.from.clone(),
        to: e.to.clone(),
        label: match &e.label {
            Some(l) => Some(l.clone()),
            None => None,
        },
        kind: e.kind,
    }
}

/// The strings of `ids` other than `id`, in order.
fn strings_without(ids: &Vec<String>, id: &String) -> (r: Vec<String>)
    ensures
        texts(r@) == ids_without(texts(ids@), id@, ids@.len() as int),
{
    let mut out: Vec<String> = Vec::new();
    let mut i: usize = 0;
    assert(texts(out@) =~= ids_without(texts(ids@), id@, 0));
    while i < ids.len()
        invariant
            i <= ids.len(),
            texts(out@) == ids_without(texts(ids@), id@, i as int),
        decreases ids.len() - i,
    {
        if ids[i] != *id {
            let ghost before = texts(out@);
            let copy = ids[i].clone();
            out.push(copy);
            proof {
                assert(texts(out@) =~= before.push(ids@[i as int]@));
            }
        }
        i += 1;
    }
    out
}

/// For each group, whether it is kept once it holds `lists[s]` nodes.
fn survivors(subs: &Vec<Subgraph>, lists: &Vec<usize>, Ghost(model): Ghost<Seq<SubgraphView>>) -> (r:
    Vec<bool>)
    requires
        lists.len() == subs.len(),
        model.len() == subs.len(),
        forall|s: int|
            0 <= s < subs.len() ==> (#[trigger] model[s]).children == subs@[s].children@
                && model[s].nodes.len() == lists@[s],
    ensures
        r.len() == subs.len(),
        forall|s: int| 0 <= s < subs.len() ==> #[trigger] r@[s] == survives(model, s),
{
    let n = subs.len();
    let mut alive: Vec<bool> = Vec::new();
    let mut i: usize = 0;
    while i < n
        invariant
            i <= n,
            alive.len() == i,
        decreases n - i,
    {
        alive.push(false);
        i += 1;
    }
    let mut s: usize = n;
    while s > 0
        invariant
            s <= n,
            n == subs.len(),
            alive.len() == n,
            lists.len() == n,
            model.len() == n,
            forall|t: int|
                0 <= t < n ==> (#[trigger] model[t]).children == subs@[t].children@
                    && model[t].nodes.len() == lists@[t],
            forall|t: int| s <= t < n ==> #[trigger] alive@[t] == survives(model, t),
        decreases s,
    {
        s -= 1;
        let sub = &subs[s];
        let mut any = false;
        let mut k: usize = 0;
        assert(model[s as int].children == sub.children@);
        while k < sub.children.len()
            invariant
                k <= sub.children.len(),
                s < n,
                n == subs.len(),
                alive.len() == n,
                model.len() == n,
                model[s as int].children == sub.children@,
                forall|t: int| s < t < n ==> #[trigger] alive@[t] == survives(model, t),
                any == child_survives(model, s as int, k as int),
            decreases sub.children.len() - k,
        {
            let c = sub.children[k];
            if s < c && c < n && alive[c] {
                any = true;
            }
            k += 1;
        }
        let keep = lists[s] > 0 || any;
        alive.set(s, keep);
    }
    alive
}

/// Beyond the arena every rank is the number of groups that are kept.
proof fn lemma_rank_beyond(subs: Seq<SubgraphView>, p: int)
    requires
        subs.len() <= p,
    ensures
        rank(subs, p) == rank(subs, subs.len() as int),
    decreases p,
{
    if subs.len() < p {
        lemma_rank_beyond(subs, p - 1);
    }
}

/// Takes the node `node_id` out of every group, then drops each group that
/// holds no node and no kept child; the links of the kept groups are
/// renumbered. Returns whether a group is left.
pub fn prune_node_from_subgraphs(subgraphs: &mut Vec<Subgraph>, node_id: &str) -> (r: bool)
    ensures
        subgraph_views(final(subgraphs)@) == compacted(
            stripped(subgraph_views(old(subgraphs)@), node_id@),
            old(subgraphs)@.len() as int,
        ),
        r == (final(subgraphs)@.len() > 0),
{
    let id = string_of(&chars_of(node_id));
    let n = subgraphs.len();
    let ghost model = stripped(subgraph_views(subgraphs@), node_id@);
    let mut counts: Vec<usize> = Vec::new();
    let mut s: usize = 0;
    while s < n
        invariant
            s <= n,
            n == subgraphs.len(),
            counts.len() == s,
            id@ == node_id@,
            model == stripped(subgraph_views(subgraphs@), node_id@),
            forall|t: int| 0 <= t < s ==> (#[trigger] model[t]).nodes.len() == counts@[t],
        decreases n - s,
    {
        let list = strings_without(&subgraphs[s].nodes, &id);
        counts.push(list.len());
        s += 1;
    }
    let alive = survivors(subgraphs, &counts, Ghost(model));
    let mut ranks: Vec<usize> = Vec::new();
    let mut total: usize = 0;
    let mut s: usize = 0;
    while s < n
        invariant
            s <= n,
            n == subgraphs.len(),
            model.len() == n,
            alive.len() == n,
            ranks.len() == s,
            total == rank(model, s as int),
            total <= s,
            forall|t: int| 0 <= t < n ==> #[trigger] alive@[t] == survives(model, t),
            forall|t: int| 0 <= t < s ==> #[trigger] ranks@[t] == rank(model, t),
        decreases n - s,
    {
        ranks.push(total);
        if alive[s] {
            total += 1;
        }
        s += 1;
    }
    let mut kept: Vec<Subgraph> = Vec::new();
    let mut s: usize = 0;
    assert(subgraph_views(kept@) =~= compacted(model, 0));
    while s < n
        invariant
            s <= n,
            n == subgraphs.len(),
            model.len() == n,
            alive.len() == n,
            ranks.len() == n,
            id@ == node_id@,
            total == rank(model, n as int),
            model == stripped(subgraph_views(subgraphs@), node_id@),
            forall|t: int| 0 <= t < n ==> #[trigger] alive@[t] == survives(model, t),
            forall|t: int| 0 <= t < n ==> #[trigger] ranks@[t] == rank(model, t),
            subgraph_views(kept@) == compacted(model, s as int),
        decreases n - s,
    {
        if alive[s] {
            let sub = &subgraphs[s];
            let mut children: Vec<usize> = Vec::new();
            let mut k: usize = 0;
            assert(model[s as int].children == sub.children@);
            while k < sub.children.len()
                invariant
                    k <= sub.children.len(),
                    s < n,
                    model.len() == n,
                    alive.len() == n,
                    ranks.len() == n,
                    model[s as int].children == sub.children@,
                    forall|t: int| 0 <= t < n ==> #[trigger] alive@[t] == survives(model, t),
                    forall|t: int| 0 <= t < n ==> #[trigger] ranks@[t] == rank(model, t),
                    children@ == kept_children(model, s as int, k as int),
                decreases sub.children.len() - k,
            {
                let c = sub.children[k];
                if c < n && alive[c] {
                    children.push(ranks[c]);
                }
                k += 1;
            }
            let parent = match sub.parent {
                Some(p) => {
                    if p < n {
                        Some(ranks[p])
                    } else {
                        proof {
                            lemma_rank_beyond(model, p as int);
                        }
                        Some(total)
                    }
                },
                None => None,
            };
            let record = Subgraph {
                id: sub.id.clone(),
                label: sub.label.clone(),
                nodes: strings_without(&sub.nodes, &id),
                children,
                parent,
                order: sub.order,
            };
            let ghost before = subgraph_views(kept@);
            kept.push(record);
            proof {
                assert(record@ == relinked(model, s as int));
                assert(subgraph_views(kept@) =~= before.push(record@));
            }
        }
        s += 1;
    }
    *subgraphs = kept;
    subgraphs.len() > 0
}

impl Diagram {
    /// Removes the node `node_id` with its edges, its membership path and
    /// its place in the groups. Returns whether there was such a node.
    pub fn remove_node(&mut self, node_id: &str) -> (existed: bool)
        requires
            old(self).wf(),
        ensures
            existed == old(self)@.order.contains(node_id@),
            existed ==> final(self)@ == without_node(old(self)@, node_id@),
            !existed ==> final(self)@ == old(self)@,
            final(self).wf(),
            old(self).valid() ==> final(self).valid(),
    {
        let id = string_of(&chars_of(node_id));
        let count = self.subgraphs.len();
        let i = match position_of(&self.order, &id) {
            None => {
                return false;
            },
            Some(i) => i,
        };
        self.order.remove(i);
        self.nodes.remove(i);
        self.node_membership.remove(i);
        let mut kept: Vec<Edge> = Vec::new();
        let mut e: usize = 0;
        assert(edge_views(kept@) =~= edges_off_node(old(self)@.edges, node_id@, 0));
        while e < self.edges.len()
            invariant
                e <= self.edges.len(),
                id@ == node_id@,
                self.edges == old(self).edges,
                edge_views(kept@) == edges_off_node(old(self)@.edges, node_id@, e as int),
            decreases self.edges.len() - e,
        {
            let edge = &self.edges[e];
            if edge.from != id && edge.to != id {
                let ghost before = edge_views(kept@);
                kept.push(copy_edge(edge));
                proof {
                    assert(edge_views(kept@) =~= before.push(edge@));
                }
            }
            e += 1;
        }
        self.edges = kept;
        prune_node_from_subgraphs(&mut self.subgraphs, node_id);
        proof {
            let d = old(self)@;
            assert(self@.order =~= d.order.remove(i as int));
            assert(self@.nodes =~= d.nodes.remove(i as int));
            assert(self@.node_membership =~= d.node_membership.remove(i as int));
            lemma_without_node_wf(d, node_id@);
            if d.valid() {
                lemma_without_node_valid(d, node_id@);
            }
        }
        true
    }

    /// Removes every edge whose identifier is `edge_id`. Returns whether an
    /// edge was removed.
    pub fn remove_edge_by_identifier(&mut self, edge_id: &str) -> (removed: bool)
        ensures
            final(self)@ == (DiagramView {
                edges: edges_not_named(old(self)@.edges, edge_id@, old(self)@.edges.len() as int),
                ..old(self)@
            }),
            removed == (final(self)@.edges.len() != old(self)@.edges.len()),
            old(self).wf() ==> final(self).wf(),
            old(self).valid() ==> final(self).valid(),
    {
        let before = self.edges.len();
        let mut kept: Vec<Edge> = Vec::new();
        let mut e: usize = 0;
        assert(edge_views(kept@) =~= edges_not_named(old(self)@.edges, edge_id@, 0));
        while e < self.edges.len()
            invariant
                e <= self.edges.len(),
                *self == *old(self),
                edge_views(kept@) == edges_not_named(old(self)@.edges, edge_id@, e as int),
            decreases self.edges.len() - e,
        {
            let edge = &self.edges[e];
            let name = edge_identifier(edge);
            if !same_chars(&chars_of(name.as_str()), &chars_of(edge_id)) {
                let ghost before = edge_views(kept@);
                kept.push(copy_edge(edge));
                proof {
                    assert(edge_views(kept@) =~= before.push(edge@));
                }
            }
            e += 1;
        }
        self.edges = kept;
        proof {
            if old(self).wf() {
                lemma_without_edges_wf(old(self)@, edge_id@);
            }
            if old(self).valid() {
                lemma_without_edges_valid(old(self)@, edge_id@);
            }
        }
        before != self.edges.len()
    }
}

} // verus!
