//! Membership paths: for every node the groups around it, outermost first.

use vstd::prelude::*;
use crate::grammar::{open_path, Draft};
use crate::model::{DiagramView, SubgraphView};

verus! {

/// The ids of the group `s` and of the groups around it, outermost first.
pub open spec fn path_of(subs: Seq<SubgraphView>, s: int) -> Seq<Seq<char>>
    decreases s,
{
    if 0 <= s < subs.len() {
        match subs[s].parent {
            Some(p) => if p < s {
                path_of(subs, p as int).push(subs[s].id)
            } else {
                seq![subs[s].id]
            },
            None => seq![subs[s].id],
        }
    } else {
        Seq::empty()
    }
}

/// The path of the group, among the first `upto`, that lists the node `id`;
/// the empty path if none of them does.
pub open spec fn owner_path(subs: Seq<SubgraphView>, id: Seq<char>, upto: int) -> Seq<Seq<char>>
    decreases upto,
{
    if upto <= 0 {
        Seq::empty()
    } else if subs[upto - 1].nodes.contains(id) {
        path_of(subs, upto - 1)
    } else {
        owner_path(subs, id, upto - 1)
    }
}

/// Whether every node has the membership path of the group that lists it,
/// and the empty path if no group does.
pub open spec fn membership_ok(d: DiagramView) -> bool {
    forall|i: int|
        0 <= i < d.order.len() ==> #[trigger] d.node_membership[i] == owner_path(
            d.subgraphs,
            d.order[i],
            d.subgraphs.len() as int,
        )
}

impl DiagramView {
    /// The full validity of a diagram: its structure is valid, and every
    /// node has the membership path of the group that lists it.
    pub open spec fn valid(self) -> bool {
        self.wf() && membership_ok(self)
    }
}

/// Whether the open groups form a chain: the first is a top-level group,
/// and each of the others has the one before it as its parent.
pub open spec fn stack_ok(st: Draft) -> bool {
    &&& forall|k: int| 0 <= k < st.open.len() ==> (#[trigger] st.open[k]) < st.d.subgraphs.len()
    &&& st.open.len() > 0 ==> st.d.subgraphs[st.open[0] as int].parent is None
    &&& forall|k: int|
        0 < k < st.open.len() ==> st.d.subgraphs[(#[trigger] st.open[k]) as int].parent == Some(
            st.open[k - 1],
        ) && st.open[k - 1] < st.open[k]
}

/// The path of a group depends on the ids and the parents alone.
pub proof fn lemma_path_frame(a: Seq<SubgraphView>, b: Seq<SubgraphView>, s: int)
    requires
        0 <= s < a.len() <= b.len(),
        forall|t: int| 0 <= t <= s ==> (#[trigger] a[t]).id == b[t].id && a[t].parent == b[t].parent,
    ensures
        path_of(a, s) == path_of(b, s),
    decreases s,
{
    assert(a[s].id == b[s].id && a[s].parent == b[s].parent);
    match a[s].parent {
        Some(p) => {
            if p < s {
                lemma_path_frame(a, b, p as int);
            }
        },
        None => {},
    }
}

/// The path of the group that lists a node is the owner path of the node,
/// where no node is listed twice.
pub proof fn lemma_owner_unique(subs: Seq<SubgraphView>, id: Seq<char>, s: int, upto: int)
    requires
        0 <= s < upto <= subs.len(),
        subs[s].nodes.contains(id),
        forall|t: int| 0 <= t < subs.len() && t != s ==> !(#[trigger] subs[t]).nodes.contains(id),
    ensures
        owner_path(subs, id, upto) == path_of(subs, s),
    decreases upto,
{
    if upto - 1 != s {
        assert(!subs[upto - 1].nodes.contains(id));
        lemma_owner_unique(subs, id, s, upto - 1);
    }
}

/// A node that no group lists has the empty owner path.
pub proof fn lemma_owner_none(subs: Seq<SubgraphView>, id: Seq<char>, upto: int)
    requires
        0 <= upto <= subs.len(),
        forall|t: int| 0 <= t < subs.len() ==> !(#[trigger] subs[t]).nodes.contains(id),
    ensures
        owner_path(subs, id, upto) == Seq::<Seq<char>>::empty(),
    decreases upto,
{
    if upto > 0 {
        assert(!subs[upto - 1].nodes.contains(id));
        lemma_owner_none(subs, id, upto - 1);
    }
}

/// The owner path of a node depends on the ids, the parents and on which
/// groups list the node.
pub proof fn lemma_owner_frame(a: Seq<SubgraphView>, b: Seq<SubgraphView>, id: Seq<char>, upto: int)
    requires
        0 <= upto <= a.len() <= b.len(),
        forall|t: int|
            0 <= t < a.len() ==> (#[trigger] a[t]).id == b[t].id && a[t].parent == b[t].parent
                && a[t].nodes.contains(id) == b[t].nodes.contains(id),
    ensures
        owner_path(a, id, upto) == owner_path(b, id, upto),
    decreases upto,
{
    if upto > 0 {
        assert(a[upto - 1].nodes.contains(id) == b[upto - 1].nodes.contains(id));
        if a[upto - 1].nodes.contains(id) {
            lemma_path_frame(a, b, upto - 1);
        } else {
            lemma_owner_frame(a, b, id, upto - 1);
        }
    }
}

/// Records beyond the first `upto` do not matter to the owner path, where
/// they list no node.
pub proof fn lemma_owner_grow(subs: Seq<SubgraphView>, id: Seq<char>, upto: int, more: int)
    requires
        0 <= upto <= more <= subs.len(),
        forall|t: int| upto <= t < more ==> !(#[trigger] subs[t]).nodes.contains(id),
    ensures
        owner_path(subs, id, more) == owner_path(subs, id, upto),
    decreases more,
{
    if upto < more {
        assert(!subs[more - 1].nodes.contains(id));
        lemma_owner_grow(subs, id, upto, more - 1);
    }
}

/// The path of the `k`-th open group is the path of the open groups up to it.
pub proof fn lemma_stack_path(st: Draft, k: int)
    requires
        stack_ok(st),
        0 <= k < st.open.len(),
    ensures
        path_of(st.d.subgraphs, st.open[k] as int) == open_path(st).take(k + 1),
    decreases k,
{
    let subs = st.d.subgraphs;
    let s = st.open[k] as int;
    assert(st.open[k] < subs.len());
    if k == 0 {
        assert(path_of(subs, s) =~= open_path(st).take(1));
    } else {
        lemma_stack_path(st, k - 1);
        assert(subs[s].parent == Some(st.open[k - 1]));
        assert(open_path(st).take(k).push(subs[s].id) =~= open_path(st).take(k + 1));
    }
}

} // verus!
