//! Walks over the forest of groups: the nodes inside a group, the depth of
//! each group, and the order in which groups are drawn.

use vstd::prelude::*;
use crate::model::{Diagram, DiagramView};
use crate::text::texts;

verus! {

/// The nodes inside the group `s`: its own, then those of its children, in order.
pub open spec fn group_nodes(d: DiagramView, s: int) -> Seq<Seq<char>>
    decreases d.subgraphs.len() - s, 1int, 0int,
{
    if 0 <= s < d.subgraphs.len() {
        d.subgraphs[s].nodes + child_nodes(d, s, d.subgraphs[s].children.len() as int)
    } else {
        Seq::empty()
    }
}

/// The nodes inside the first `upto` children of the group `s`.
pub open spec fn child_nodes(d: DiagramView, s: int, upto: int) -> Seq<Seq<char>>
    decreases d.subgraphs.len() - s, 0int, upto,
{
    if 0 <= s < d.subgraphs.len() && 0 < upto <= d.subgraphs[s].children.len() {
        let c = d.subgraphs[s].children[upto - 1] as int;
        child_nodes(d, s, upto - 1) + if s < c < d.subgraphs.len() {
            group_nodes(d, c)
        } else {
            Seq::empty()
        }
    } else {
        Seq::empty()
    }
}

/// The number of groups around the group `s`: 0 for a top-level group.
pub open spec fn depth_of(d: DiagramView, s: int) -> nat
    decreases s,
{
    if 0 <= s < d.subgraphs.len() {
        match d.subgraphs[s].parent {
            Some(p) => if p < s {
                depth_of(d, p as int) + 1
            } else {
                0
            },
            None => 0,
        }
    } else {
        0
    }
}

/// The groups among the first `upto` whose depth is `k`, in arena order.
pub open spec fn at_depth(d: DiagramView, k: nat, upto: int) -> Seq<usize>
    decreases upto,
{
    if upto <= 0 {
        Seq::empty()
    } else if depth_of(d, upto - 1) == k {
        at_depth(d, k, upto - 1).push((upto - 1) as usize)
    } else {
        at_depth(d, k, upto - 1)
    }
}

/// The groups of depth below `k`: by depth, and within one depth in arena
/// order, which is the order of declaration.
pub open spec fn stacked(d: DiagramView, k: nat) -> Seq<usize>
    decreases k,
{
    if k == 0 {
        Seq::empty()
    } else {
        stacked(d, (k - 1) as nat) + at_depth(d, (k - 1) as nat, d.subgraphs.len() as int)
    }
}

proof fn lemma_depth_bound(d: DiagramView, s: int)
    requires
        0 <= s < d.subgraphs.len(),
    ensures
        depth_of(d, s) <= s,
    decreases s,
{
    match d.subgraphs[s].parent {
        Some(p) => {
            if p < s {
                lemma_depth_bound(d, p as int);
            }
        },
        None => {},
    }
}

impl Diagram {
    /// Appends the nodes inside the group `s` to `nodes`.
    pub fn collect_nodes_recursive(&self, s: usize, nodes: &mut Vec<String>)
        requires
            self.wf(),
            s < self.subgraphs.len(),
        ensures
            texts(final(nodes)@) == texts(old(nodes)@) + group_nodes(self@, s as int),
        decreases self.subgraphs.len() - s,
    {
        let ghost start = texts(nodes@);
        let sub = &self.subgraphs[s];
        let mut i: usize = 0;
        assert(texts(nodes@) =~= start + self@.subgraphs[s as int].nodes.take(0));
        while i < sub.nodes.len()
            invariant
                i <= sub.nodes.len(),
                s < self.subgraphs.len(),
                sub == &self.subgraphs[s as int],
                texts(nodes@) == start + self@.subgraphs[s as int].nodes.take(i as int),
            decreases sub.nodes.len() - i,
        {
            let ghost before = texts(nodes@);
            let id = sub.nodes[i].clone();
            nodes.push(id);
            proof {
                assert(id@ == self@.subgraphs[s as int].nodes[i as int]);
                assert(texts(nodes@) =~= before.push(id@));
                assert(texts(nodes@) =~= start + self@.subgraphs[s as int].nodes.take(i + 1));
            }
            i += 1;
        }
        proof {
            let own = self@.subgraphs[s as int].nodes;
            assert(own.take(own.len() as int) =~= own);
            assert(texts(nodes@) =~= start + own + child_nodes(self@, s as int, 0));
        }
        let mut k: usize = 0;
        while k < sub.children.len()
            invariant
                k <= sub.children.len(),
                self.wf(),
                s < self.subgraphs.len(),
                sub == &self.subgraphs[s as int],
                texts(nodes@) == start + self@.subgraphs[s as int].nodes + child_nodes(
                    self@,
                    s as int,
                    k as int,
                ),
            decreases sub.children.len() - k,
        {
            let c = sub.children[k];
            proof {
                assert(self@.subgraph_wf(s as int));
                assert(self@.subgraphs[s as int].children[k as int] == c);
            }
            self.collect_nodes_recursive(c, nodes);
            proof {
                assert(texts(nodes@) =~= start + self@.subgraphs[s as int].nodes + child_nodes(
                    self@,
                    s as int,
                    k + 1,
                ));
            }
            k += 1;
        }
        proof {
            assert(texts(nodes@) =~= start + group_nodes(self@, s as int));
        }
    }

    /// The nodes inside the group `s`: its own and those of the groups nested in it.
    pub fn gather_subgraph_nodes(&self, s: usize) -> (r: Vec<String>)
        requires
            self.wf(),
            s < self.subgraphs.len(),
        ensures
            texts(r@) == group_nodes(self@, s as int),
    {
        let mut nodes: Vec<String> = Vec::new();
        self.collect_nodes_recursive(s, &mut nodes);
        proof {
            assert(texts(nodes@) =~= group_nodes(self@, s as int));
        }
        nodes
    }

    /// The depth of every group.
    pub fn subgraph_depths(&self) -> (r: Vec<usize>)
        ensures
            r@.len() == self.subgraphs@.len(),
            forall|s: int| 0 <= s < r@.len() ==> #[trigger] r@[s] == depth_of(self@, s),
    {
        let mut depths: Vec<usize> = Vec::new();
        let mut s: usize = 0;
        while s < self.subgraphs.len()
            invariant
                s <= self.subgraphs.len(),
                depths@.len() == s,
                forall|t: int| 0 <= t < s ==> #[trigger] depths@[t] == depth_of(self@, t),
            decreases self.subgraphs.len() - s,
        {
            let depth = match self.subgraphs[s].parent {
                Some(p) => {
                    if p < s {
                        proof {
                            lemma_depth_bound(self@, p as int);
                        }
                        depths[p] + 1
                    } else {
                        0
                    }
                },
                None => 0,
            };
            depths.push(depth);
            s += 1;
        }
        depths
    }

    /// The order in which the groups are drawn: outer groups before the
    /// groups nested in them, and groups of one depth in declaration order.
    pub fn stacking_order(&self) -> (r: Vec<usize>)
        ensures
            r@ == stacked(self@, self.subgraphs@.len() as nat),
            forall|i: int| 0 <= i < r@.len() ==> #[trigger] r@[i] < self.subgraphs@.len(),
    {
        let n = self.subgraphs.len();
        let depths = self.subgraph_depths();
        let mut out: Vec<usize> = Vec::new();
        let mut k: usize = 0;
        while k < n
            invariant
                k <= n,
                n == self.subgraphs@.len(),
                depths@.len() == n,
                forall|s: int| 0 <= s < n ==> #[trigger] depths@[s] == depth_of(self@, s),
                out@ == stacked(self@, k as nat),
                forall|i: int| 0 <= i < out@.len() ==> #[trigger] out@[i] < n,
            decreases n - k,
        {
            let ghost before = out@;
            let mut s: usize = 0;
            while s < n
                invariant
                    s <= n,
                    k < n,
                    n == self.subgraphs@.len(),
                    depths@.len() == n,
                    forall|t: int| 0 <= t < n ==> #[trigger] depths@[t] == depth_of(self@, t),
                    out@ == before + at_depth(self@, k as nat, s as int),
                    forall|i: int| 0 <= i < out@.len() ==> #[trigger] out@[i] < n,
                decreases n - s,
            {
                if depths[s] == k {
                    out.push(s);
                    proof {
                        assert(out@ =~= before + at_depth(self@, k as nat, s + 1));
                    }
                }
                s += 1;
            }
            k += 1;
        }
        out
    }
}

} // verus!
