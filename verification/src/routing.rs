//! The discrete rules of edge routing: which edges run between the same two
//! nodes in opposite directions, and which of two candidate routes is better.

use vstd::prelude::*;
use crate::model::{Diagram, Edge, EdgeView};
use crate::text::chars_of;

verus! {

/// Whether `a` comes before `b` in the order of a dictionary, from the
/// index `i` on: the first difference decides, and a proper prefix comes first.
pub open spec fn lex_less_from(a: Seq<char>, b: Seq<char>, i: int) -> bool
    decreases a.len() - i,
{
    if i < 0 || i >= b.len() {
        false
    } else if i >= a.len() {
        true
    } else if a[i] != b[i] {
        a[i] < b[i]
    } else {
        lex_less_from(a, b, i + 1)
    }
}

/// Whether `a` comes before `b` in the order of a dictionary.
pub open spec fn lex_less(a: Seq<char>, b: Seq<char>) -> bool {
    lex_less_from(a, b, 0)
}

/// Whether `e` runs forward: from the smaller id to the greater.
pub open spec fn is_forward(e: EdgeView) -> bool {
    !lex_less(e.to, e.from)
}

/// Whether `e` and `f` join the same two nodes, in either direction.
pub open spec fn same_pair(e: EdgeView, f: EdgeView) -> bool {
    (e.from == f.from && e.to == f.to) || (e.from == f.to && e.to == f.from)
}

/// The first edge at or after `from` that joins the nodes of the edge `e`
/// and runs forward, or backward, as `forward` says; the number of edges
/// if there is none.
pub open spec fn first_with(edges: Seq<EdgeView>, e: int, forward: bool, from: int) -> int
    decreases edges.len() - from,
{
    if 0 <= from < edges.len() && !(same_pair(edges[e], edges[from]) && is_forward(edges[from])
        == forward) {
        first_with(edges, e, forward, from + 1)
    } else {
        from
    }
}

/// The number of edges before `upto` that join the nodes of the edge `e`
/// and run in its direction.
pub open spec fn slot_in(edges: Seq<EdgeView>, e: int, upto: int) -> nat
    decreases upto,
{
    if upto <= 0 {
        0
    } else {
        slot_in(edges, e, upto - 1) + if same_pair(edges[e], edges[upto - 1]) && is_forward(
            edges[upto - 1],
        ) == is_forward(edges[e]) {
            1nat
        } else {
            0nat
        }
    }
}

/// The place of an edge among the edges that join its two nodes, where
/// these run in both directions.
#[derive(Clone, Copy, Debug, PartialEq, Eq, Structural)]
pub struct Bundle {
    /// Whether the edge runs from the smaller id to the greater.
    pub forward: bool,
    /// The number of earlier edges between the two nodes in the same direction.
    pub slot: usize,
    /// The first forward edge between the two nodes.
    pub first_forward: usize,
    /// The first backward edge between the two nodes.
    pub first_backward: usize,
}

/// The bundle of the edge `e`: `None` for a loop at one node, and where the
/// edges between its two nodes all run in one direction.
pub open spec fn bundle_of(edges: Seq<EdgeView>, e: int) -> Option<Bundle> {
    let ff = first_with(edges, e, true, 0);
    let fb = first_with(edges, e, false, 0);
    if edges[e].from == edges[e].to || ff >= edges.len() || fb >= edges.len() {
        None
    } else {
        Some(
            Bundle {
                forward: is_forward(edges[e]),
                slot: slot_in(edges, e, e) as usize,
                first_forward: ff as usize,
                first_backward: fb as usize,
            },
        )
    }
}

/// Whether `a` comes before `b` in the order of a dictionary.
pub fn lex_less_in(a: &Vec<char>, b: &Vec<char>) -> (r: bool)
    ensures
        r == lex_less(a@, b@),
{
    let mut i: usize = 0;
    loop
        invariant
            i <= a.len(),
            i <= b.len(),
            lex_less(a@, b@) == lex_less_from(a@, b@, i as int),
        decreases a.len() - i,
    {
        if i >= b.len() {
            return false;
        }
        if i >= a.len() {
            return true;
        }
        if a[i] != b[i] {
            return a[i] < b[i];
        }
        i += 1;
    }
}

/// Whether `e` runs from the smaller id to the greater.
fn runs_forward(e: &Edge) -> (r: bool)
    ensures
        r == is_forward(e@),
{
    !lex_less_in(&chars_of(e.to.as_str()), &chars_of(e.from.as_str()))
}

/// Whether `e` and `f` join the same two nodes.
fn joins_same(e: &Edge, f: &Edge) -> (r: bool)
    ensures
        r == same_pair(e@, f@),
{
    (e.from == f.from && e.to == f.to) || (e.from == f.to && e.to == f.from)
}

impl Diagram {
    /// For each edge its bundle: its place among the edges that join the
    /// same two nodes, where these run in both directions.
    pub fn edge_bundles(&self) -> (r: Vec<Option<Bundle>>)
        ensures
            r@.len() == self.edges@.len(),
            forall|e: int| 0 <= e < r@.len() ==> #[trigger] r@[e] == bundle_of(self@.edges, e),
    {
        let m = self.edges.len();
        let ghost edges = self@.edges;
        let mut forward: Vec<bool> = Vec::new();
        let mut k: usize = 0;
        while k < m
            invariant
                k <= m,
                m == self.edges@.len(),
                edges == self@.edges,
                forward@.len() == k,
                forall|i: int| 0 <= i < k ==> #[trigger] forward@[i] == is_forward(edges[i]),
            decreases m - k,
        {
            forward.push(runs_forward(&self.edges[k]));
            k += 1;
        }
        let mut out: Vec<Option<Bundle>> = Vec::new();
        let mut e: usize = 0;
        while e < m
            invariant
                e <= m,
                m == self.edges@.len(),
                edges == self@.edges,
                forward@.len() == m,
                forall|i: int| 0 <= i < m ==> #[trigger] forward@[i] == is_forward(edges[i]),
                out@.len() == e,
                forall|i: int| 0 <= i < e ==> #[trigger] out@[i] == bundle_of(edges, i),
            decreases m - e,
        {
            let edge = &self.edges[e];
            let mut ff: usize = 0;
            while ff < m && !(joins_same(edge, &self.edges[ff]) && forward[ff])
                invariant
                    ff <= m,
                    e < m,
                    m == self.edges@.len(),
                    edges == self@.edges,
                    edge == &self.edges[e as int],
                    forward@.len() == m,
                    forall|i: int| 0 <= i < m ==> #[trigger] forward@[i] == is_forward(edges[i]),
                    first_with(edges, e as int, true, 0) == first_with(
                        edges,
                        e as int,
                        true,
                        ff as int,
                    ),
                decreases m - ff,
            {
                ff += 1;
            }
            let mut fb: usize = 0;
            while fb < m && !(joins_same(edge, &self.edges[fb]) && !forward[fb])
                invariant
                    fb <= m,
                    e < m,
                    m == self.edges@.len(),
                    edges == self@.edges,
                    edge == &self.edges[e as int],
                    forward@.len() == m,
                    forall|i: int| 0 <= i < m ==> #[trigger] forward@[i] == is_forward(edges[i]),
                    first_with(edges, e as int, false, 0) == first_with(
                        edges,
                        e as int,
                        false,
                        fb as int,
                    ),
                decreases m - fb,
            {
                fb += 1;
            }
            let mut slot: usize = 0;
            let mut i: usize = 0;
            while i < e
                invariant
                    i <= e < m,
                    m == self.edges@.len(),
                    edges == self@.edges,
                    edge == &self.edges[e as int],
                    forward@.len() == m,
                    forall|k: int| 0 <= k < m ==> #[trigger] forward@[k] == is_forward(edges[k]),
                    slot == slot_in(edges, e as int, i as int),
                    slot <= i,
                decreases e - i,
            {
                if joins_same(edge, &self.edges[i]) && forward[i] == forward[e] {
                    slot += 1;
                }
                i += 1;
            }
            if edge.from == edge.to || ff >= m || fb >= m {
                out.push(None);
            } else {
                out.push(
                    Some(Bundle { forward: forward[e], slot, first_forward: ff, first_backward: fb }),
                );
            }
            e += 1;
        }
        out
    }
}

/// How a candidate route fares: whether it crosses a node that is not its
/// own, whether its label covers a node, and how many routed edges it crosses.
#[derive(Clone, Copy, Debug, PartialEq, Eq, Structural)]
pub struct RouteScore {
    pub blocks_node: bool,
    pub blocks_label: bool,
    pub crossings: usize,
}

/// Whether the score `a` is better than `b`: a blocked node counts first,
/// then a blocked label, then the number of crossings.
pub open spec fn better(a: RouteScore, b: RouteScore) -> bool {
    if a.blocks_node != b.blocks_node {
        !a.blocks_node
    } else if a.blocks_label != b.blocks_label {
        !a.blocks_label
    } else {
        a.crossings < b.crossings
    }
}

/// Whether the score `a` is that of a route without any conflict.
pub open spec fn perfect(a: RouteScore) -> bool {
    !a.blocks_node && !a.blocks_label && a.crossings == 0
}

impl RouteScore {
    /// Whether this score is better than `other`.
    pub fn better_than(&self, other: &RouteScore) -> (r: bool)
        ensures
            r == better(*self, *other),
    {
        if self.blocks_node != other.blocks_node {
            !self.blocks_node
        } else if self.blocks_label != other.blocks_label {
            !self.blocks_label
        } else {
            self.crossings < other.crossings
        }
    }

    /// Whether the route has no conflict.
    pub fn is_perfect(&self) -> (r: bool)
        ensures
            r == perfect(*self),
    {
        !self.blocks_node && !self.blocks_label && self.crossings == 0
    }

    /// Holds `candidate` against the best score so far: `best` becomes
    /// `candidate` where that is better. Returns whether the candidate was
    /// taken, and whether the best score is now perfect.
    pub fn consider(best: &mut RouteScore, candidate: RouteScore) -> (r: (bool, bool))
        ensures
            r.0 == better(candidate, *old(best)),
            *final(best) == if r.0 {
                candidate
            } else {
                *old(best)
            },
            r.1 == perfect(*final(best)),
    {
        let taken = candidate.better_than(best);
        if taken {
            *best = candidate;
        }
        (taken, best.is_perfect())
    }
}

/// The candidate that a search settles on after the first `upto`
/// candidates: `None` while the route it started from, with the score
/// `base`, is not beaten; each candidate that beats what was found before
/// it takes its place; nothing is looked at once a perfect one is found.
pub open spec fn settled_on(base: RouteScore, scores: Seq<RouteScore>, upto: int) -> Option<int>
    decreases upto,
{
    if upto <= 0 {
        None
    } else {
        let before = settled_on(base, scores, upto - 1);
        let best = match before {
            Some(i) => scores[i],
            None => base,
        };
        if perfect(best) {
            before
        } else if better(scores[upto - 1], best) {
            Some(upto - 1)
        } else {
            before
        }
    }
}

/// What a search settles on is better than where it started, is beaten by
/// no candidate that was looked at, and comes first among those that are
/// as good; and a search that settles on nothing has met no candidate
/// that beats where it started.
pub proof fn lemma_settled_on(base: RouteScore, scores: Seq<RouteScore>, upto: int)
    requires
        0 <= upto <= scores.len(),
        !perfect(base),
    ensures
        match settled_on(base, scores, upto) {
            Some(i) => {
                &&& 0 <= i < upto
                &&& better(scores[i], base)
                &&& forall|j: int| 0 <= j < i ==> better(scores[i], #[trigger] scores[j])
                &&& perfect(scores[i]) || forall|j: int|
                    0 <= j < upto ==> !better(#[trigger] scores[j], scores[i])
            },
            None => forall|j: int| 0 <= j < upto ==> !better(#[trigger] scores[j], base),
        },
    decreases upto,
{
    if upto > 0 {
        lemma_settled_on(base, scores, upto - 1);
    }
}

/// Which of two crossing labels gives way: the first attempt without a
/// collision among the first `upto`, or the last attempt if every one collides.
pub open spec fn first_clear(collides: Seq<bool>, upto: int) -> Option<int>
    decreases upto,
{
    if upto <= 0 {
        None
    } else {
        match first_clear(collides, upto - 1) {
            Some(i) => if collides[i] {
                Some(upto - 1)
            } else {
                Some(i)
            },
            None => Some(upto - 1),
        }
    }
}

/// The attempt that is kept is the first without a collision; it is the
/// last attempt only if every attempt before it collides.
pub proof fn lemma_first_clear(collides: Seq<bool>, upto: int)
    requires
        0 <= upto <= collides.len(),
    ensures
        upto == 0 ==> first_clear(collides, upto) is None,
        upto > 0 ==> first_clear(collides, upto) is Some,
        match first_clear(collides, upto) {
            Some(i) => {
                &&& 0 <= i < upto
                &&& forall|j: int| 0 <= j < i ==> #[trigger] collides[j]
                &&& collides[i] ==> i == upto - 1
            },
            None => true,
        },
    decreases upto,
{
    if upto > 0 {
        lemma_first_clear(collides, upto - 1);
    }
}

impl RouteScore {
    /// The candidate that a search settles on, given the score `base` of
    /// the route it starts from and the scores of the candidates in the
    /// order in which they are tried: the first perfect candidate if there
    /// is one; else the best candidate, and the first among equals, if it
    /// is better than `base`; else none.
    pub fn select(base: RouteScore, scores: &Vec<RouteScore>) -> (r: Option<usize>)
        ensures
            match r {
                Some(i) => settled_on(base, scores@, scores@.len() as int) == Some(i as int),
                None => settled_on(base, scores@, scores@.len() as int) is None,
            },
    {
        let mut best = base;
        let mut found: Option<usize> = None;
        let mut k: usize = 0;
        while k < scores.len()
            invariant
                k <= scores.len(),
                match found {
                    Some(i) => i < k && settled_on(base, scores@, k as int) == Some(i as int)
                        && best == scores@[i as int],
                    None => settled_on(base, scores@, k as int) is None && best == base,
                },
            decreases scores.len() - k,
        {
            if !best.is_perfect() && scores[k].better_than(&best) {
                best = scores[k];
                found = Some(k);
            }
            k += 1;
        }
        found
    }
}

/// The attempt that is kept among `collides.len()` attempts, of which
/// `collides[i]` says whether the `i`-th collides: the first that does not;
/// the last if every one does; none if there is no attempt.
pub fn keep_attempt(collides: &Vec<bool>) -> (r: Option<usize>)
    ensures
        match r {
            Some(i) => first_clear(collides@, collides@.len() as int) == Some(i as int),
            None => first_clear(collides@, collides@.len() as int) is None,
        },
{
    let mut found: Option<usize> = None;
    let mut k: usize = 0;
    while k < collides.len()
        invariant
            k <= collides.len(),
            match found {
                Some(i) => i < k && first_clear(collides@, k as int) == Some(i as int),
                None => first_clear(collides@, k as int) is None,
            },
        decreases collides.len() - k,
    {
        match found {
            Some(i) => {
                if collides[i] {
                    found = Some(k);
                }
            },
            None => {
                found = Some(k);
            },
        }
        k += 1;
    }
    found
}

} // verus!
