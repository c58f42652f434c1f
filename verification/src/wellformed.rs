//! Reading a definition keeps the diagram valid.

use vstd::prelude::*;
use crate::grammar::{
    edge_split, edge_target, intern, open_path, open_subgraph, operand, run, step, subgraph_header,
    Draft, OperandView,
};
use crate::model::{distinct, subgraph_ids};
use crate::paths::{
    lemma_owner_frame, lemma_owner_grow, lemma_owner_none, lemma_owner_unique, lemma_path_frame,
    lemma_stack_path, membership_ok, owner_path, stack_ok,
};

verus! {

/// Whether every open group is a record of the arena.
pub open spec fn open_in_range(st: Draft) -> bool {
    forall|i: int| 0 <= i < st.open.len() ==> (#[trigger] st.open[i]) < st.d.subgraphs.len()
}

/// The validity of a reading state: the diagram so far is valid, the open
/// groups exist, and each group's `order` is its index.
pub open spec fn draft_wf(st: Draft) -> bool {
    &&& st.d.wf()
    &&& open_in_range(st)
    &&& forall|t: int| 0 <= t < st.d.subgraphs.len() ==> (#[trigger] st.d.subgraphs[t]).order == t
}

/// Declaring a node keeps the state valid.
pub proof fn lemma_intern_wf(st: Draft, op: OperandView)
    requires
        draft_wf(st),
    ensures
        draft_wf(intern(st, op)),
        intern(st, op).d.order.contains(op.id),
        intern(st, op).d.subgraphs.len() == st.d.subgraphs.len(),
        forall|id: Seq<char>| st.d.order.contains(id) ==> intern(st, op).d.order.contains(id),
{
    let st2 = intern(st, op);
    if st.d.order.contains(op.id) {
    } else {
        let n = st.d.order.len() as int;
        assert(st2.d.order[n] == op.id);
        assert forall|id: Seq<char>| st.d.order.contains(id) implies st2.d.order.contains(id) by {
            let k = choose|k: int| 0 <= k < st.d.order.len() && st.d.order[k] == id;
            assert(st2.d.order[k] == id);
        }
        assert(distinct(st2.d.order)) by {
            assert forall|i: int, j: int| 0 <= i < j < st2.d.order.len() implies st2.d.order[i]
                != st2.d.order[j] by {
                if j == n {
                    assert(st.d.order[i] == st2.d.order[i]);
                }
            }
        }
        assert(subgraph_ids(st2.d.subgraphs) =~= subgraph_ids(st.d.subgraphs));
        assert forall|s: int| 0 <= s < st2.d.subgraphs.len() implies st2.d.subgraph_wf(s) by {
            assert(st.d.subgraph_wf(s));
            let g = st2.d.subgraphs[s];
            assert(g.children == st.d.subgraphs[s].children);
            match g.parent {
                Some(p) => {
                    assert(st2.d.subgraphs[p as int].children == st.d.subgraphs[p as int].children);
                },
                None => {},
            }
            assert forall|k: int| 0 <= k < g.children.len() implies s < #[trigger] g.children[k]
                < st2.d.subgraphs.len() && st2.d.subgraphs[g.children[k] as int].parent == Some(
                s as usize,
            ) by {
                assert(st.d.subgraphs[g.children[k] as int].parent == Some(s as usize));
            }
            assert forall|t: int| 0 <= t < s implies (#[trigger] st2.d.subgraphs[t]).order
                < g.order by {
                assert(st.d.subgraphs[t].order < st.d.subgraphs[s].order);
            }
        }
        assert forall|s: int, k: int|
            0 <= s < st2.d.subgraphs.len() && 0 <= k
                < st2.d.subgraphs[s].nodes.len() implies st2.d.order.contains(
            #[trigger] st2.d.subgraphs[s].nodes[k],
        ) by {
            if st.open.len() > 0 && s == st.open.last() && k == st.d.subgraphs[s].nodes.len() {
            } else {
                assert(st2.d.subgraphs[s].nodes[k] == st.d.subgraphs[s].nodes[k]);
                assert(st.d.order.contains(st.d.subgraphs[s].nodes[k]));
            }
        }
        assert forall|s: int, k: int, t: int, l: int|
            0 <= s < st2.d.subgraphs.len() && 0 <= k < st2.d.subgraphs[s].nodes.len() && 0 <= t
                < st2.d.subgraphs.len() && 0 <= l < st2.d.subgraphs[t].nodes.len()
                && #[trigger] st2.d.subgraphs[s].nodes[k]
                == #[trigger] st2.d.subgraphs[t].nodes[l] implies s == t && k == l by {
            let fresh_s = st.open.len() > 0 && s == st.open.last() && k
                == st.d.subgraphs[s].nodes.len();
            let fresh_t = st.open.len() > 0 && t == st.open.last() && l
                == st.d.subgraphs[t].nodes.len();
            if !fresh_s {
                assert(st2.d.subgraphs[s].nodes[k] == st.d.subgraphs[s].nodes[k]);
                assert(st.d.order.contains(st.d.subgraphs[s].nodes[k]));
            }
            if !fresh_t {
                assert(st2.d.subgraphs[t].nodes[l] == st.d.subgraphs[t].nodes[l]);
                assert(st.d.order.contains(st.d.subgraphs[t].nodes[l]));
            }
        }
        assert forall|e: int| 0 <= e < st2.d.edges.len() implies st2.d.order.contains(
            #[trigger] st2.d.edges[e].from,
        ) && st2.d.order.contains(st2.d.edges[e].to) by {
            assert(st.d.order.contains(st.d.edges[e].from));
            assert(st.d.order.contains(st.d.edges[e].to));
        }
    }
}

/// Opening a group with a new id keeps the state valid.
pub proof fn lemma_open_subgraph_wf(st: Draft, id: Seq<char>, label: Seq<char>)
    requires
        draft_wf(st),
        !subgraph_ids(st.d.subgraphs).contains(id),
        st.d.subgraphs.len() < usize::MAX,
    ensures
        draft_wf(open_subgraph(st, id, label)),
{
    let st2 = open_subgraph(st, id, label);
    let n = st.d.subgraphs.len() as int;
    let index = n as usize;
    assert(st2.d.subgraphs.len() == n + 1);
    assert(st2.d.subgraphs[n].order == index);
    assert(distinct(subgraph_ids(st2.d.subgraphs))) by {
        assert forall|i: int, j: int|
            0 <= i < j < subgraph_ids(st2.d.subgraphs).len() implies subgraph_ids(
            st2.d.subgraphs,
        )[i] != subgraph_ids(st2.d.subgraphs)[j] by {
            assert(subgraph_ids(st2.d.subgraphs)[i] == subgraph_ids(st.d.subgraphs)[i]);
            if j == n {
                assert(subgraph_ids(st2.d.subgraphs)[j] == id);
            } else {
                assert(subgraph_ids(st2.d.subgraphs)[j] == subgraph_ids(st.d.subgraphs)[j]);
            }
        }
    }
    assert forall|t: int| 0 <= t < st2.d.subgraphs.len() implies (
    #[trigger] st2.d.subgraphs[t]).order == t by {
        if t < n {
            assert(st2.d.subgraphs[t].order == st.d.subgraphs[t].order);
        }
    }
    assert forall|s: int| 0 <= s < st2.d.subgraphs.len() implies st2.d.subgraph_wf(s) by {
        let g = st2.d.subgraphs[s];
        if s < n {
            let g0 = st.d.subgraphs[s];
            assert(st.d.subgraph_wf(s));
            let is_top = st.open.len() > 0 && s == st.open.last();
            assert(g.parent == g0.parent);
            match g.parent {
                Some(p) => {
                    let k = choose|k: int|
                        0 <= k < st.d.subgraphs[p as int].children.len()
                            && st.d.subgraphs[p as int].children[k] == s as usize;
                    assert(st2.d.subgraphs[p as int].children[k] == s as usize);
                },
                None => {},
            }
            assert forall|k: int| 0 <= k < g.children.len() implies s < #[trigger] g.children[k]
                < st2.d.subgraphs.len() && st2.d.subgraphs[g.children[k] as int].parent == Some(
                s as usize,
            ) by {
                if is_top && k == g0.children.len() {
                    assert(g.children[k] == index);
                } else {
                    assert(g.children[k] == g0.children[k]);
                    assert(st.d.subgraphs[g0.children[k] as int].parent == Some(s as usize));
                }
            }
            assert forall|k: int, l: int| 0 <= k < l < g.children.len() implies g.children[k]
                < g.children[l] by {
                if is_top && l == g0.children.len() {
                    assert(g.children[k] == g0.children[k]);
                    assert(g0.children[k] < st.d.subgraphs.len());
                } else {
                    assert(g.children[k] == g0.children[k]);
                    assert(g.children[l] == g0.children[l]);
                }
            }
            assert forall|t: int| 0 <= t < s implies (#[trigger] st2.d.subgraphs[t]).order
                < g.order by {
                assert(st2.d.subgraphs[t].order == t);
            }
        } else {
            if st.open.len() > 0 {
                let top = st.open.last();
                assert(st.open[st.open.len() - 1] < n);
                let kids = st2.d.subgraphs[top as int].children;
                assert(kids[kids.len() - 1] == index);
            }
            assert forall|t: int| 0 <= t < s implies (#[trigger] st2.d.subgraphs[t]).order
                < g.order by {
                assert(st2.d.subgraphs[t].order == t);
            }
        }
    }
    assert forall|s: int, k: int|
        0 <= s < st2.d.subgraphs.len() && 0 <= k
            < st2.d.subgraphs[s].nodes.len() implies st2.d.order.contains(
        #[trigger] st2.d.subgraphs[s].nodes[k],
    ) by {
        assert(st2.d.subgraphs[s].nodes[k] == st.d.subgraphs[s].nodes[k]);
    }
    assert forall|s: int, k: int, t: int, l: int|
        0 <= s < st2.d.subgraphs.len() && 0 <= k < st2.d.subgraphs[s].nodes.len() && 0 <= t
            < st2.d.subgraphs.len() && 0 <= l < st2.d.subgraphs[t].nodes.len()
            && #[trigger] st2.d.subgraphs[s].nodes[k]
            == #[trigger] st2.d.subgraphs[t].nodes[l] implies s == t && k == l by {
        assert(st2.d.subgraphs[s].nodes[k] == st.d.subgraphs[s].nodes[k]);
        assert(st2.d.subgraphs[t].nodes[l] == st.d.subgraphs[t].nodes[l]);
    }
    assert forall|i: int| 0 <= i < st2.open.len() implies (#[trigger] st2.open[i])
        < st2.d.subgraphs.len() by {
        if i < st.open.len() {
            assert(st2.open[i] == st.open[i]);
        }
    }
}

/// Reading a line keeps the state valid.
pub proof fn lemma_step_wf(st: Draft, raw: Seq<char>)
    requires
        draft_wf(st),
        step(st, raw) is Ok,
        step(st, raw)->Ok_0.d.subgraphs.len() <= usize::MAX,
    ensures
        draft_wf(step(st, raw)->Ok_0),
{
    let st2 = step(st, raw)->Ok_0;
    if st2 == st {
    } else if st2.d == st.d {
        assert forall|i: int| 0 <= i < st2.open.len() implies (#[trigger] st2.open[i])
            < st2.d.subgraphs.len() by {
            assert(st2.open[i] == st.open[i]);
        }
    } else if st2.d.subgraphs.len() > st.d.subgraphs.len() {
        let line = crate::text::trim(raw);
        let h = subgraph_header(
            line.subrange("subgraph"@.len() as int, line.len() as int),
        )->Ok_0;
        lemma_open_subgraph_wf(st, h.0, h.1);
    } else {
        let line = crate::text::trim(raw);
        match edge_split(line) {
            Some((lhs, rhs, kind)) => {
                let (label, target) = edge_target(rhs)->Ok_0;
                let from = operand(lhs)->Ok_0;
                let to = operand(target)->Ok_0;
                lemma_intern_wf(st, from);
                lemma_intern_wf(intern(st, from), to);
                let mid = intern(intern(st, from), to);
                assert forall|e: int| 0 <= e < st2.d.edges.len() implies st2.d.order.contains(
                    #[trigger] st2.d.edges[e].from,
                ) && st2.d.order.contains(st2.d.edges[e].to) by {
                    if e < mid.d.edges.len() {
                        assert(st2.d.edges[e] == mid.d.edges[e]);
                        assert(mid.d.order.contains(mid.d.edges[e].from));
                    } else {
                        assert(st2.d.edges[e].from == from.id);
                        assert(st2.d.edges[e].to == to.id);
                        assert(intern(st, from).d.order.contains(from.id));
                        assert(mid.d.order.contains(from.id));
                        assert(mid.d.order.contains(to.id));
                    }
                }
                assert forall|s: int| 0 <= s < st2.d.subgraphs.len() implies st2.d.subgraph_wf(
                    s,
                ) by {
                    assert(mid.d.subgraph_wf(s));
                }
            },
            None => {
                lemma_intern_wf(st, operand(line)->Ok_0);
            },
        }
    }
}

/// A failure among the first `k` lines is the failure of the whole.
pub proof fn lemma_run_failure(st: Draft, raws: Seq<Seq<char>>, k: int)
    requires
        0 <= k <= raws.len(),
        run(st, raws.take(k)) is Err,
    ensures
        run(st, raws) == run(st, raws.take(k)),
    decreases raws.len(),
{
    if k == raws.len() {
        assert(raws.take(k) =~= raws);
    } else {
        assert(raws.drop_last().take(k) =~= raws.take(k));
        lemma_run_failure(st, raws.drop_last(), k);
    }
}

/// The full validity of a reading state: the state is valid, every node has
/// the membership path of the group that lists it, and the open groups form
/// a chain.
pub open spec fn draft_valid(st: Draft) -> bool {
    draft_wf(st) && membership_ok(st.d) && stack_ok(st)
}

/// Declaring a node keeps the state fully valid.
pub proof fn lemma_intern_valid(st: Draft, op: OperandView)
    requires
        draft_valid(st),
    ensures
        draft_valid(intern(st, op)),
{
    lemma_intern_wf(st, op);
    let st2 = intern(st, op);
    if !st.d.order.contains(op.id) {
        let subs = st.d.subgraphs;
        let subs2 = st2.d.subgraphs;
        let n = st.d.order.len() as int;
        let count = subs.len() as int;
        assert forall|t: int| 0 <= t < count implies !(#[trigger] subs[t]).nodes.contains(op.id) by {
            if subs[t].nodes.contains(op.id) {
                let k = choose|k: int| 0 <= k < subs[t].nodes.len() && #[trigger] subs[t].nodes[k] == op.id;
                assert(st.d.order.contains(st.d.subgraphs[t].nodes[k]));
            }
        }
        assert forall|t: int| 0 <= t < count implies (#[trigger] subs[t]).id == subs2[t].id
            && subs[t].parent == subs2[t].parent by {}
        assert forall|i: int| 0 <= i < st2.d.order.len() implies #[trigger] st2.d.node_membership[i]
            == owner_path(st2.d.subgraphs, st2.d.order[i], st2.d.subgraphs.len() as int) by {
            if i < n {
                let x = st.d.order[i];
                assert(st2.d.order[i] == x);
                assert(x != op.id) by {
                    if x == op.id {
                        assert(st.d.order.contains(op.id));
                    }
                }
                assert forall|t: int| 0 <= t < count implies (#[trigger] subs[t]).id == subs2[t].id
                    && subs[t].parent == subs2[t].parent && subs[t].nodes.contains(x)
                    == subs2[t].nodes.contains(x) by {
                    if subs2[t].nodes != subs[t].nodes {
                        let old_nodes = subs[t].nodes;
                        let new_nodes = subs2[t].nodes;
                        assert(new_nodes == old_nodes.push(op.id));
                        if old_nodes.contains(x) {
                            let k = choose|k: int| 0 <= k < old_nodes.len() && #[trigger] old_nodes[k] == x;
                            assert(new_nodes[k] == x);
                        }
                        if new_nodes.contains(x) {
                            let k = choose|k: int| 0 <= k < new_nodes.len() && #[trigger] new_nodes[k] == x;
                            assert(old_nodes[k] == x);
                        }
                    }
                }
                lemma_owner_frame(subs, subs2, x, count);
                assert(st.d.node_membership[i] == owner_path(subs, st.d.order[i], count));
                assert(st2.d.node_membership[i] == st.d.node_membership[i]);
            } else {
                assert(st2.d.order[i] == op.id);
                assert(st2.d.node_membership[i] == open_path(st));
                if st.open.len() == 0 {
                    lemma_owner_none(subs2, op.id, count);
                    assert(open_path(st) =~= Seq::<Seq<char>>::empty());
                } else {
                    let top = st.open.last() as int;
                    assert(st.open[st.open.len() - 1] < count);
                    let listed = subs2[top].nodes;
                    assert(listed[listed.len() - 1] == op.id);
                    assert forall|t: int| 0 <= t < subs2.len() && t != top implies !(
                    #[trigger] subs2[t]).nodes.contains(op.id) by {
                        assert(subs2[t].nodes == subs[t].nodes);
                        assert(!subs[t].nodes.contains(op.id));
                    }
                    lemma_owner_unique(subs2, op.id, top, count);
                    lemma_path_frame(subs, subs2, top);
                    lemma_stack_path(st, st.open.len() - 1);
                    assert(open_path(st).take(st.open.len() as int) =~= open_path(st));
                }
            }
        }
        assert(stack_ok(st2)) by {
            assert forall|k: int| 0 < k < st2.open.len() implies st2.d.subgraphs[(
            #[trigger] st2.open[k]) as int].parent == Some(st2.open[k - 1]) && st2.open[k - 1]
                < st2.open[k] by {
                assert(st.d.subgraphs[st.open[k] as int].parent == Some(st.open[k - 1]));
                assert(st.open[k] < count);
            }
            if st2.open.len() > 0 {
                assert(st.open[0] < count);
            }
        }
    }
}

/// Opening a group with a new id keeps the state fully valid.
pub proof fn lemma_open_subgraph_valid(st: Draft, id: Seq<char>, label: Seq<char>)
    requires
        draft_valid(st),
        !subgraph_ids(st.d.subgraphs).contains(id),
        st.d.subgraphs.len() < usize::MAX,
    ensures
        draft_valid(open_subgraph(st, id, label)),
{
    lemma_open_subgraph_wf(st, id, label);
    let st2 = open_subgraph(st, id, label);
    let subs = st.d.subgraphs;
    let subs2 = st2.d.subgraphs;
    let count = subs.len() as int;
    assert(subs2.len() == count + 1);
    assert(subs2[count].nodes.len() == 0);
    assert forall|i: int| 0 <= i < st2.d.order.len() implies #[trigger] st2.d.node_membership[i]
        == owner_path(st2.d.subgraphs, st2.d.order[i], st2.d.subgraphs.len() as int) by {
        let x = st.d.order[i];
        assert forall|t: int| count <= t < count + 1 implies !(#[trigger] subs2[t]).nodes.contains(
            x,
        ) by {}
        lemma_owner_grow(subs2, x, count, count + 1);
        assert forall|t: int| 0 <= t < count implies (#[trigger] subs[t]).id == subs2[t].id
            && subs[t].parent == subs2[t].parent && subs[t].nodes.contains(x)
            == subs2[t].nodes.contains(x) by {
            assert(subs2[t].nodes == subs[t].nodes);
        }
        lemma_owner_frame(subs, subs2, x, count);
        assert(st.d.node_membership[i] == owner_path(subs, st.d.order[i], count));
    }
    assert(stack_ok(st2)) by {
        let index = count as usize;
        assert forall|k: int| 0 <= k < st2.open.len() implies (#[trigger] st2.open[k])
            < st2.d.subgraphs.len() by {
            if k < st.open.len() {
                assert(st2.open[k] == st.open[k]);
            }
        }
        assert forall|k: int| 0 < k < st2.open.len() implies st2.d.subgraphs[(
        #[trigger] st2.open[k]) as int].parent == Some(st2.open[k - 1]) && st2.open[k - 1]
            < st2.open[k] by {
            if k < st.open.len() {
                assert(st.d.subgraphs[st.open[k] as int].parent == Some(st.open[k - 1]));
                assert(st.open[k] < count && st.open[k - 1] < count);
            } else {
                assert(st2.open[k] == index);
                assert(st2.open[k - 1] == st.open[st.open.len() - 1]);
                assert(st.open[st.open.len() - 1] < count);
            }
        }
        if st.open.len() > 0 {
            assert(st.open[0] < count);
            assert(st2.open[0] == st.open[0]);
        }
    }
}

/// Reading a line keeps the state fully valid.
pub proof fn lemma_step_valid(st: Draft, raw: Seq<char>)
    requires
        draft_valid(st),
        step(st, raw) is Ok,
        step(st, raw)->Ok_0.d.subgraphs.len() <= usize::MAX,
    ensures
        draft_valid(step(st, raw)->Ok_0),
{
    lemma_step_wf(st, raw);
    let st2 = step(st, raw)->Ok_0;
    if st2 == st {
    } else if st2.d == st.d {
        assert forall|k: int| 0 < k < st2.open.len() implies st2.d.subgraphs[(
        #[trigger] st2.open[k]) as int].parent == Some(st2.open[k - 1]) && st2.open[k - 1]
            < st2.open[k] by {
            assert(st2.open[k] == st.open[k]);
            assert(st.d.subgraphs[st.open[k] as int].parent == Some(st.open[k - 1]));
        }
        assert forall|k: int| 0 <= k < st2.open.len() implies (#[trigger] st2.open[k])
            < st2.d.subgraphs.len() by {
            assert(st2.open[k] == st.open[k]);
        }
        if st2.open.len() > 0 {
            assert(st2.open[0] == st.open[0]);
        }
    } else if st2.d.subgraphs.len() > st.d.subgraphs.len() {
        let line = crate::text::trim(raw);
        let h = subgraph_header(
            line.subrange("subgraph"@.len() as int, line.len() as int),
        )->Ok_0;
        lemma_open_subgraph_valid(st, h.0, h.1);
    } else {
        let line = crate::text::trim(raw);
        match edge_split(line) {
            Some((lhs, rhs, kind)) => {
                let (label, target) = edge_target(rhs)->Ok_0;
                let from = operand(lhs)->Ok_0;
                let to = operand(target)->Ok_0;
                lemma_intern_valid(st, from);
                lemma_intern_valid(intern(st, from), to);
                let mid = intern(intern(st, from), to);
                assert(st2.d.order == mid.d.order);
                assert(st2.d.node_membership == mid.d.node_membership);
                assert(st2.d.subgraphs == mid.d.subgraphs);
                assert(st2.open == mid.open);
                assert forall|i: int| 0 <= i < st2.d.order.len() implies #[trigger] st2.d.node_membership[i]
                    == owner_path(
                    st2.d.subgraphs,
                    st2.d.order[i],
                    st2.d.subgraphs.len() as int,
                ) by {
                    assert(mid.d.node_membership[i] == owner_path(
                        mid.d.subgraphs,
                        mid.d.order[i],
                        mid.d.subgraphs.len() as int,
                    ));
                }
            },
            None => {
                lemma_intern_valid(st, operand(line)->Ok_0);
            },
        }
    }
}

} // verus!
