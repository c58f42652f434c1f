//! Checking at run time that a diagram is valid.

use vstd::prelude::*;
use crate::model::{distinct, subgraph_ids, Diagram};
use crate::paths::{membership_ok, owner_path, path_of};
use crate::text::{lemma_position, position, position_of, texts};

verus! {

/// Whether no string of `ids` occurs twice.
pub fn all_distinct(ids: &Vec<String>) -> (r: bool)
    ensures
        r == distinct(texts(ids@)),
{
    let ghost seq = texts(ids@);
    let mut i: usize = 0;
    while i < ids.len()
        invariant
            i <= ids.len(),
            seq == texts(ids@),
            forall|a: int, b: int| 0 <= a < b < i ==> seq[a] != seq[b],
        decreases ids.len() - i,
    {
        proof {
            lemma_position(seq, ids@[i as int]@);
            assert(seq[i as int] == ids@[i as int]@);
        }
        match position_of(ids, &ids[i]) {
            Some(p) => {
                if p != i {
                    assert(seq[p as int] == seq[i as int]);
                    return false;
                }
            },
            None => {
                return false;
            },
        }
        i += 1;
    }
    true
}

/// Whether the children of the record `s` are later records that name `s`
/// as their parent, in rising order.
fn children_ok(d: &Diagram, s: usize) -> (r: bool)
    requires
        s < d.subgraphs.len(),
    ensures
        r == ({
            let g = d@.subgraphs[s as int];
            &&& forall|k: int|
                0 <= k < g.children.len() ==> s < #[trigger] g.children[k] < d@.subgraphs.len()
                    && d@.subgraphs[g.children[k] as int].parent == Some(s)
            &&& forall|k: int, l: int| 0 <= k < l < g.children.len() ==> g.children[k] < g.children[l]
        }),
{
    let sub = &d.subgraphs[s];
    let ghost g = d@.subgraphs[s as int];
    proof {
        d.lemma_view_parts();
    }
    assert(g.children == sub.children@);
    let mut k: usize = 0;
    while k < sub.children.len()
        invariant
            k <= sub.children.len(),
            s < d.subgraphs.len(),
            sub == &d.subgraphs[s as int],
            g == d@.subgraphs[s as int],
            g.children == sub.children@,
            forall|j: int|
                0 <= j < k ==> s < #[trigger] g.children[j] < d@.subgraphs.len()
                    && d@.subgraphs[g.children[j] as int].parent == Some(s),
            forall|j: int, l: int| 0 <= j < l < k ==> g.children[j] < g.children[l],
        decreases sub.children.len() - k,
    {
        let c = sub.children[k];
        if !(s < c && c < d.subgraphs.len()) {
            assert(!(s < g.children[k as int] < d@.subgraphs.len()));
            return false;
        }
        match d.subgraphs[c].parent {
            Some(p) => {
                if p != s {
                    assert(d@.subgraphs[g.children[k as int] as int].parent != Some(s));
                    return false;
                }
            },
            None => {
                assert(d@.subgraphs[g.children[k as int] as int].parent != Some(s));
                return false;
            },
        }
        if k > 0 && sub.children[k - 1] >= c {
            assert(!(g.children[k - 1] < g.children[k as int]));
            return false;
        }
        proof {
            assert forall|j: int, l: int| 0 <= j < l < k + 1 implies g.children[j]
                < g.children[l] by {
                if l == k && j < k - 1 {
                    assert(g.children[j] < g.children[k - 1]);
                }
            }
        }
        k += 1;
    }
    true
}

/// Whether the parent of the record `s` is an earlier record that lists `s`.
fn parent_ok(d: &Diagram, s: usize) -> (r: bool)
    requires
        s < d.subgraphs.len(),
    ensures
        r == match d@.subgraphs[s as int].parent {
            Some(p) => p < s && d@.subgraphs[p as int].children.contains(s),
            None => true,
        },
{
    proof {
        d.lemma_view_parts();
    }
    match d.subgraphs[s].parent {
        None => true,
        Some(p) => {
            if p >= s {
                return false;
            }
            let kids = &d.subgraphs[p].children;
            assert(d@.subgraphs[p as int].children == kids@);
            let mut k: usize = 0;
            while k < kids.len()
                invariant
                    k <= kids.len(),
                    p < s < d.subgraphs.len(),
                    d@.subgraphs[s as int].parent == Some(p),
                    d@.subgraphs[p as int].children == kids@,
                    forall|j: int| 0 <= j < k ==> kids@[j] != s,
                decreases kids.len() - k,
            {
                if kids[k] == s {
                    assert(d@.subgraphs[p as int].children[k as int] == s);
                    return true;
                }
                k += 1;
            }
            false
        },
    }
}

/// Whether the node `k` of the group `s` is declared and is listed nowhere
/// before: neither earlier in `s` nor in an earlier group.
fn member_ok(d: &Diagram, s: usize, k: usize) -> (r: bool)
    requires
        s < d.subgraphs.len(),
        k < d.subgraphs[s as int].nodes.len(),
    ensures
        r == ({
            let id = d@.subgraphs[s as int].nodes[k as int];
            &&& d@.order.contains(id)
            &&& forall|l: int| 0 <= l < k ==> #[trigger] d@.subgraphs[s as int].nodes[l] != id
            &&& forall|t: int, l: int|
                0 <= t < s && 0 <= l < d@.subgraphs[t].nodes.len()
                    ==> #[trigger] d@.subgraphs[t].nodes[l] != id
        }),
{
    proof {
        d.lemma_view_parts();
    }
    let id = &d.subgraphs[s].nodes[k];
    let ghost idv = d@.subgraphs[s as int].nodes[k as int];
    assert(id@ == idv);
    if position_of(&d.order, id).is_none() {
        return false;
    }
    let own = &d.subgraphs[s].nodes;
    proof {
        lemma_position(texts(own@), idv);
        assert(texts(own@) == d@.subgraphs[s as int].nodes);
    }
    match position_of(own, id) {
        Some(p) => {
            if p != k {
                assert(d@.subgraphs[s as int].nodes[p as int] == idv);
                return false;
            }
        },
        None => {
            assert(texts(own@)[k as int] == idv);
            return false;
        },
    }
    let mut t: usize = 0;
    while t < s
        invariant
            t <= s < d.subgraphs.len(),
            id@ == idv,
            k < d@.subgraphs[s as int].nodes.len(),
            idv == d@.subgraphs[s as int].nodes[k as int],
            d@.order.contains(idv),
            forall|l: int| 0 <= l < k ==> #[trigger] d@.subgraphs[s as int].nodes[l] != idv,
            forall|u: int, l: int|
                0 <= u < t && 0 <= l < d@.subgraphs[u].nodes.len()
                    ==> #[trigger] d@.subgraphs[u].nodes[l] != idv,
        decreases s - t,
    {
        let other = &d.subgraphs[t].nodes;
        proof {
            d.lemma_view_parts();
            lemma_position(texts(other@), idv);
            assert(texts(other@) == d@.subgraphs[t as int].nodes);
        }
        if position_of(other, id).is_some() {
            let ghost at = position(texts(other@), idv);
            assert(0 <= at < d@.subgraphs[t as int].nodes.len());
            assert(d@.subgraphs[t as int].nodes[at] == idv);
            return false;
        }
        t += 1;
    }
    true
}

/// The ids of the group `s` and of the groups around it, outermost first.
pub fn path_ids(d: &Diagram, s: usize) -> (r: Vec<String>)
    requires
        s < d.subgraphs.len(),
    ensures
        texts(r@) == path_of(d@.subgraphs, s as int),
    decreases s,
{
    proof {
        d.lemma_view_parts();
    }
    let mut path = match d.subgraphs[s].parent {
        Some(p) => {
            if p < s {
                path_ids(d, p)
            } else {
                Vec::new()
            }
        },
        None => Vec::new(),
    };
    let ghost before = texts(path@);
    let id = d.subgraphs[s].id.clone();
    path.push(id);
    proof {
        assert(texts(path@) =~= before.push(id@));
        assert(id@ == d@.subgraphs[s as int].id);
        assert(texts(path@) =~= path_of(d@.subgraphs, s as int));
    }
    path
}

/// The path of the group that lists the node `id`; the empty path if no
/// group lists it.
pub fn owner_path_ids(d: &Diagram, id: &String) -> (r: Vec<String>)
    ensures
        texts(r@) == owner_path(d@.subgraphs, id@, d@.subgraphs.len() as int),
{
    proof {
        d.lemma_view_parts();
    }
    let mut upto: usize = d.subgraphs.len();
    while upto > 0
        invariant
            upto <= d.subgraphs.len(),
            owner_path(d@.subgraphs, id@, d@.subgraphs.len() as int) == owner_path(
                d@.subgraphs,
                id@,
                upto as int,
            ),
        decreases upto,
    {
        proof {
            d.lemma_view_parts();
            assert(d@.subgraphs[upto - 1].nodes == texts(d.subgraphs@[upto - 1].nodes@));
        }
        if position_of(&d.subgraphs[upto - 1].nodes, id).is_some() {
            return path_ids(d, upto - 1);
        }
        upto -= 1;
    }
    let none: Vec<String> = Vec::new();
    proof {
        assert(texts(none@) =~= Seq::<Seq<char>>::empty());
    }
    none
}

/// Whether `a` and `b` hold the same texts.
pub fn same_texts(a: &Vec<String>, b: &Vec<String>) -> (r: bool)
    ensures
        r == (texts(a@) == texts(b@)),
{
    if a.len() != b.len() {
        assert(texts(a@).len() != texts(b@).len());
        return false;
    }
    let mut i: usize = 0;
    while i < a.len()
        invariant
            i <= a.len(),
            a.len() == b.len(),
            forall|k: int| 0 <= k < i ==> #[trigger] texts(a@)[k] == texts(b@)[k],
        decreases a.len() - i,
    {
        if a[i] != b[i] {
            assert(texts(a@)[i as int] != texts(b@)[i as int]);
            return false;
        }
        i += 1;
    }
    proof {
        assert(texts(a@) =~= texts(b@));
    }
    true
}

/// Whether every node has the membership path of the group that lists it.
fn membership_valid(d: &Diagram) -> (r: bool)
    requires
        d.wf(),
    ensures
        r == membership_ok(d@),
{
    proof {
        d.lemma_view_parts();
    }
    let mut i: usize = 0;
    while i < d.order.len()
        invariant
            i <= d.order.len(),
            d.order@.len() == d.node_membership@.len(),
            forall|k: int|
                0 <= k < i ==> #[trigger] d@.node_membership[k] == owner_path(
                    d@.subgraphs,
                    d@.order[k],
                    d@.subgraphs.len() as int,
                ),
        decreases d.order.len() - i,
    {
        proof {
            d.lemma_view_parts();
        }
        let path = owner_path_ids(d, &d.order[i]);
        if !same_texts(&d.node_membership[i], &path) {
            assert(d@.node_membership[i as int] == texts(d.node_membership@[i as int]@));
            assert(d@.order[i as int] == d.order@[i as int]@);
            return false;
        }
        proof {
            assert(d@.node_membership[i as int] == texts(d.node_membership@[i as int]@));
            assert(d@.order[i as int] == d.order@[i as int]@);
        }
        i += 1;
    }
    true
}

impl Diagram {
    /// Whether the diagram is fully valid.
    pub fn is_valid(&self) -> (r: bool)
        ensures
            r == self.valid(),
    {
        self.is_well_formed() && membership_valid(self)
    }

    /// Whether the structure of the diagram is valid.
    pub fn is_well_formed(&self) -> (r: bool)
        ensures
            r == self.wf(),
    {
        let ghost d = self@;
        proof {
            self.lemma_view_parts();
        }
        if self.nodes.len() != self.order.len() || self.node_membership.len() != self.order.len() {
            return false;
        }
        if !all_distinct(&self.order) {
            return false;
        }
        if !self.edges_are_joined() {
            return false;
        }
        let mut ids: Vec<String> = Vec::new();
        let mut s: usize = 0;
        while s < self.subgraphs.len()
            invariant
                s <= self.subgraphs.len(),
                d == self@,
                texts(ids@) == subgraph_ids(d.subgraphs).take(s as int),
            decreases self.subgraphs.len() - s,
        {
            proof {
                self.lemma_view_parts();
            }
            let ghost before = texts(ids@);
            let id = self.subgraphs[s].id.clone();
            ids.push(id);
            proof {
                assert(texts(ids@) =~= before.push(id@));
                assert(texts(ids@) =~= subgraph_ids(d.subgraphs).take(s + 1));
            }
            s += 1;
        }
        proof {
            assert(texts(ids@) =~= subgraph_ids(d.subgraphs));
        }
        if !all_distinct(&ids) {
            return false;
        }
        let mut s: usize = 0;
        while s < self.subgraphs.len()
            invariant
                s <= self.subgraphs.len(),
                d == self@,
                forall|t: int| 0 <= t < s ==> d.subgraph_wf(t),
                forall|t: int, u: int|
                    0 <= t < u < s ==> (#[trigger] d.subgraphs[t]).order < (
                    #[trigger] d.subgraphs[u]).order,
                forall|t: int, l: int|
                    0 <= t < s && 0 <= l < d.subgraphs[t].nodes.len() ==> d.order.contains(
                        #[trigger] d.subgraphs[t].nodes[l],
                    ),
                forall|t: int, l: int, u: int, m: int|
                    0 <= t < s && 0 <= l < d.subgraphs[t].nodes.len() && 0 <= u < s && 0 <= m
                        < d.subgraphs[u].nodes.len() && #[trigger] d.subgraphs[t].nodes[l]
                        == #[trigger] d.subgraphs[u].nodes[m] ==> t == u && l == m,
            decreases self.subgraphs.len() - s,
        {
            proof {
                self.lemma_view_parts();
            }
            if !parent_ok(self, s) || !children_ok(self, s) {
                assert(!d.subgraph_wf(s as int));
                return false;
            }
            if s > 0 && self.subgraphs[s - 1].order >= self.subgraphs[s].order {
                assert(!(d.subgraphs[s - 1].order < d.subgraphs[s as int].order));
                assert(!d.subgraph_wf(s as int));
                return false;
            }
            proof {
                assert forall|t: int| 0 <= t < s implies (#[trigger] d.subgraphs[t]).order
                    < d.subgraphs[s as int].order by {
                    if t < s - 1 {
                        assert(d.subgraphs[t].order < d.subgraphs[s - 1].order);
                    }
                }
                assert(d.subgraph_wf(s as int));
            }
            let mut k: usize = 0;
            while k < self.subgraphs[s].nodes.len()
                invariant
                    s < self.subgraphs.len(),
                    k <= self.subgraphs[s as int].nodes.len(),
                    d == self@,
                    forall|t: int, l: int|
                        (0 <= t < s && 0 <= l < d.subgraphs[t].nodes.len()) || (t == s && 0 <= l
                            < k) ==> d.order.contains(#[trigger] d.subgraphs[t].nodes[l]),
                    forall|t: int, l: int, u: int, m: int|
                        ((0 <= t < s && 0 <= l < d.subgraphs[t].nodes.len()) || (t == s && 0 <= l
                            < k)) && ((0 <= u < s && 0 <= m < d.subgraphs[u].nodes.len()) || (u
                            == s && 0 <= m < k)) && #[trigger] d.subgraphs[t].nodes[l]
                            == #[trigger] d.subgraphs[u].nodes[m] ==> t == u && l == m,
                decreases self.subgraphs[s as int].nodes.len() - k,
            {
                proof {
                    self.lemma_view_parts();
                }
                if !member_ok(self, s, k) {
                    proof {
                        let id = d.subgraphs[s as int].nodes[k as int];
                        if d.wf() {
                            assert(d.order.contains(d.subgraphs[s as int].nodes[k as int]));
                            assert forall|l: int| 0 <= l < k implies #[trigger] d.subgraphs[s as int].nodes[l]
                                != id by {
                                if d.subgraphs[s as int].nodes[l] == d.subgraphs[s as int].nodes[k as int] {
                                    assert(l == k);
                                }
                            }
                            assert forall|t: int, l: int|
                                0 <= t < s && 0 <= l
                                    < d.subgraphs[t].nodes.len() implies #[trigger] d.subgraphs[t].nodes[l]
                                != id by {
                                if d.subgraphs[t].nodes[l] == d.subgraphs[s as int].nodes[k as int] {
                                    assert(t == s);
                                }
                            }
                            assert(false);
                        }
                    }
                    return false;
                }
                k += 1;
            }
            s += 1;
        }
        true
    }
}

} // verus!
