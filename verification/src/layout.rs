//! The automatic layout, as far as it is discrete: each node's layer, its
//! place in the layer, and the extent of the grid. Turning the grid into
//! coordinates is left to the caller.

use vstd::prelude::*;
use crate::levels::{compute_levels, graph_ok, levels_of, lemma_levels_increase, topological};
use crate::model::{Diagram, DiagramView, Direction};
use crate::text::{lemma_position, position, position_of};

verus! {

/// The place of a node in the grid: the layer it lies in, counted along the
/// diagram's direction; its index within the layer; and the number of nodes
/// in that layer.
#[derive(Clone, Copy, Debug, PartialEq, Eq, Structural)]
pub struct GridSlot {
    pub layer: usize,
    pub index: usize,
    pub count: usize,
}

/// The grid of a diagram: one slot per node, in declaration order; the
/// number of layers and the size of the largest layer, each at least 1.
#[derive(Clone, Debug)]
pub struct AutoGrid {
    pub slots: Vec<GridSlot>,
    pub level_count: usize,
    pub max_per_level: usize,
}

/// The edges of `d` as pairs of node indices.
pub open spec fn endpoints(d: DiagramView) -> Seq<(usize, usize)> {
    Seq::new(
        d.edges.len(),
        |e: int|
            (
                position(d.order, d.edges[e].from) as usize,
                position(d.order, d.edges[e].to) as usize,
            ),
    )
}

/// The level of every node of `d`, in declaration order.
pub open spec fn node_levels(d: DiagramView) -> Seq<nat> {
    levels_of(d.order.len() as int, endpoints(d))
}

/// The number of nodes among the first `upto` that have the level `x`.
pub open spec fn count_eq(levels: Seq<usize>, x: usize, upto: int) -> nat
    decreases upto,
{
    if upto <= 0 {
        0
    } else {
        count_eq(levels, x, upto - 1) + if levels[upto - 1] == x {
            1nat
        } else {
            0nat
        }
    }
}

/// Whether no node before `w` has the level of `w`.
pub open spec fn is_first(levels: Seq<usize>, w: int) -> bool {
    count_eq(levels, levels[w], w) == 0
}

/// The number of different levels below `x` that occur among the first
/// `upto` nodes.
pub open spec fn layers_under(levels: Seq<usize>, x: int, upto: int) -> nat
    decreases upto,
{
    if upto <= 0 {
        0
    } else {
        layers_under(levels, x, upto - 1) + if levels[upto - 1] < x && is_first(levels, upto - 1) {
            1nat
        } else {
            0nat
        }
    }
}

/// The number of different levels that occur.
pub open spec fn layer_total(levels: Seq<usize>) -> nat {
    layers_under(levels, usize::MAX + 1, levels.len() as int)
}

/// The size of the largest layer that one of the first `upto` nodes lies in.
pub open spec fn widest(levels: Seq<usize>, upto: int) -> nat
    decreases upto,
{
    if upto <= 0 {
        0
    } else {
        let w = widest(levels, upto - 1);
        let c = count_eq(levels, levels[upto - 1], levels.len() as int);
        if w < c {
            c
        } else {
            w
        }
    }
}

/// Whether the layers of `direction` are counted from the far end.
pub open spec fn reversed(direction: Direction) -> bool {
    direction == Direction::BottomTop || direction == Direction::RightLeft
}

/// The slot of the node `v`: layers are the levels that occur, in rising
/// order, counted from the far end for bottom-to-top and right-to-left
/// diagrams; within a layer the nodes keep their declaration order.
pub open spec fn slot_of(direction: Direction, levels: Seq<usize>, v: int) -> GridSlot {
    let rank = layers_under(levels, levels[v] as int, levels.len() as int);
    GridSlot {
        layer: if reversed(direction) {
            (layer_total(levels) - 1 - rank) as usize
        } else {
            rank as usize
        },
        index: count_eq(levels, levels[v], v) as usize,
        count: count_eq(levels, levels[v], levels.len() as int) as usize,
    }
}

/// A node with the level `x` before `upto`, where one is counted.
proof fn lemma_count_witness(levels: Seq<usize>, x: usize, upto: int) -> (w: int)
    requires
        count_eq(levels, x, upto) > 0,
    ensures
        0 <= w < upto && levels[w] == x,
    decreases upto,
{
    if levels[upto - 1] == x {
        upto - 1
    } else {
        lemma_count_witness(levels, x, upto - 1)
    }
}

proof fn lemma_layers_order(levels: Seq<usize>, x: int, y: int, upto: int)
    requires
        x <= y,
        0 <= upto,
    ensures
        layers_under(levels, x, upto) <= layers_under(levels, y, upto),
        layers_under(levels, x, upto) <= upto,
    decreases upto,
{
    if upto > 0 {
        lemma_layers_order(levels, x, y, upto - 1);
    }
}

/// The level of a node among the first `upto` is one of the levels that occur there.
proof fn lemma_layers_strict(levels: Seq<usize>, v: int, upto: int)
    requires
        0 <= v < upto <= levels.len(),
    ensures
        layers_under(levels, levels[v] as int, upto) < layers_under(levels, levels[v] + 1, upto),
    decreases upto,
{
    let x = levels[v];
    lemma_layers_order(levels, x as int, x + 1, upto - 1);
    if levels[upto - 1] == x {
        if !is_first(levels, upto - 1) {
            let w = lemma_count_witness(levels, x, upto - 1);
            lemma_layers_strict(levels, w, upto - 1);
        }
    } else {
        lemma_layers_strict(levels, v, upto - 1);
    }
}

impl Diagram {
    /// The edges as pairs of node indices.
    pub fn edge_endpoints(&self) -> (r: Vec<(usize, usize)>)
        requires
            self.wf(),
        ensures
            r@ == endpoints(self@),
            graph_ok(self.order@.len() as int, r@),
    {
        let mut out: Vec<(usize, usize)> = Vec::new();
        let mut e: usize = 0;
        while e < self.edges.len()
            invariant
                e <= self.edges.len(),
                self.wf(),
                out@ == endpoints(self@).take(e as int),
                graph_ok(self.order@.len() as int, out@),
            decreases self.edges.len() - e,
        {
            let edge = &self.edges[e];
            proof {
                assert(self@.order.contains(self@.edges[e as int].from));
                assert(self@.order.contains(self@.edges[e as int].to));
            }
            let from = position_of(&self.order, &edge.from);
            let to = position_of(&self.order, &edge.to);
            match (from, to) {
                (Some(a), Some(b)) => {
                    out.push((a, b));
                    proof {
                        assert(out@ =~= endpoints(self@).take(e + 1));
                    }
                },
                _ => {
                    assert(false);
                },
            }
            e += 1;
        }
        proof {
            assert(out@ =~= endpoints(self@));
        }
        out
    }

    /// The level of every node, in declaration order.
    pub fn node_levels(&self) -> (levels: Vec<usize>)
        requires
            self.wf(),
        ensures
            levels@.len() == self.order@.len(),
            forall|v: int|
                0 <= v < levels@.len() ==> #[trigger] levels@[v] as nat == node_levels(self@)[v],
    {
        let edges = self.edge_endpoints();
        compute_levels(self.order.len(), &edges)
    }

    /// The grid of the automatic layout: the slot of every node, the number
    /// of layers and the size of the largest layer.
    pub fn compute_auto_layout(&self) -> (grid: AutoGrid)
        requires
            self.wf(),
        ensures
            grid.slots@.len() == self.order@.len(),
            is_auto_layout(self@, grid),
    {
        let levels = self.node_levels();
        let grid = grid_for(self.direction, &levels);
        proof {
            assert(has_levels(self@, levels@));
            assert(grid_of(self.direction, levels@, grid));
        }
        grid
    }
}

/// Whether `levels` holds the level of every node of `d`.
pub open spec fn has_levels(d: DiagramView, levels: Seq<usize>) -> bool {
    &&& levels.len() == d.order.len()
    &&& forall|v: int| 0 <= v < levels.len() ==> #[trigger] levels[v] as nat == node_levels(d)[v]
}

/// Whether `grid` is the grid of the automatic layout of `d`: the grid of
/// nodes with the levels of `d`, laid out in the direction of `d`.
pub open spec fn is_auto_layout(d: DiagramView, grid: AutoGrid) -> bool {
    exists|levels: Seq<usize>| has_levels(d, levels) && #[trigger] grid_of(d.direction, levels, grid)
}

/// The automatic layout is a function of the diagram: two grids of one
/// diagram have the same slots and the same extent.
pub proof fn lemma_layout_deterministic(d: DiagramView, a: AutoGrid, b: AutoGrid)
    requires
        is_auto_layout(d, a),
        is_auto_layout(d, b),
    ensures
        a.slots@ == b.slots@,
        a.level_count == b.level_count,
        a.max_per_level == b.max_per_level,
{
    let la = choose|levels: Seq<usize>|
        has_levels(d, levels) && #[trigger] grid_of(d.direction, levels, a);
    let lb = choose|levels: Seq<usize>|
        has_levels(d, levels) && #[trigger] grid_of(d.direction, levels, b);
    assert(la =~= lb) by {
        assert forall|v: int| 0 <= v < la.len() implies la[v] == lb[v] by {
            assert(la[v] as nat == node_levels(d)[v]);
            assert(lb[v] as nat == node_levels(d)[v]);
        }
    }
    assert(a.slots@ =~= b.slots@) by {
        assert forall|v: int| 0 <= v < a.slots@.len() implies a.slots@[v] == b.slots@[v] by {
            assert(a.slots@[v] == slot_of(d.direction, la, v));
            assert(b.slots@[v] == slot_of(d.direction, lb, v));
        }
    }
}

/// Whether `grid` is the grid of nodes with the levels `levels`.
pub open spec fn grid_of(direction: Direction, levels: Seq<usize>, grid: AutoGrid) -> bool {
    &&& grid.slots@.len() == levels.len()
    &&& forall|v: int| 0 <= v < levels.len() ==> #[trigger] grid.slots@[v] == slot_of(direction, levels, v)
    &&& grid.level_count == if layer_total(levels) < 1 {
        1
    } else {
        layer_total(levels)
    }
    &&& grid.max_per_level == if widest(levels, levels.len() as int) < 1 {
        1
    } else {
        widest(levels, levels.len() as int)
    }
}

/// The number of nodes among the first `upto` with the level `x`.
fn count_level(levels: &Vec<usize>, x: usize, upto: usize) -> (r: usize)
    requires
        upto <= levels.len(),
    ensures
        r == count_eq(levels@, x, upto as int),
        r <= upto,
{
    let mut count: usize = 0;
    let mut i: usize = 0;
    while i < upto
        invariant
            i <= upto <= levels.len(),
            count == count_eq(levels@, x, i as int),
            count <= i,
        decreases upto - i,
    {
        if levels[i] == x {
            count += 1;
        }
        i += 1;
    }
    count
}

/// The grid of nodes with the levels `levels`.
pub fn grid_for(direction: Direction, levels: &Vec<usize>) -> (grid: AutoGrid)
    ensures
        grid_of(direction, levels@, grid),
{
    let n = levels.len();
    let mut first: Vec<bool> = Vec::new();
    let mut total: usize = 0;
    let mut width: usize = 0;
    let mut w: usize = 0;
    while w < n
        invariant
            w <= n,
            n == levels.len(),
            first@.len() == w,
            forall|i: int| 0 <= i < w ==> #[trigger] first@[i] == is_first(levels@, i),
            total == layers_under(levels@, usize::MAX + 1, w as int),
            total <= w,
            width == widest(levels@, w as int),
        decreases n - w,
    {
        let before = count_level(levels, levels[w], w);
        let all = count_level(levels, levels[w], n);
        first.push(before == 0);
        if before == 0 {
            total += 1;
        }
        if width < all {
            width = all;
        }
        w += 1;
    }
    let mut slots: Vec<GridSlot> = Vec::new();
    let mut v: usize = 0;
    while v < n
        invariant
            v <= n,
            n == levels.len(),
            first@.len() == n,
            forall|i: int| 0 <= i < n ==> #[trigger] first@[i] == is_first(levels@, i),
            total == layer_total(levels@),
            slots@.len() == v,
            forall|i: int| 0 <= i < v ==> #[trigger] slots@[i] == slot_of(direction, levels@, i),
        decreases n - v,
    {
        let x = levels[v];
        let mut rank: usize = 0;
        let mut i: usize = 0;
        while i < n
            invariant
                i <= n,
                n == levels.len(),
                first@.len() == n,
                forall|k: int| 0 <= k < n ==> #[trigger] first@[k] == is_first(levels@, k),
                rank == layers_under(levels@, x as int, i as int),
                rank <= i,
            decreases n - i,
        {
            if levels[i] < x && first[i] {
                rank += 1;
            }
            i += 1;
        }
        proof {
            lemma_layers_strict(levels@, v as int, n as int);
            lemma_layers_order(levels@, x + 1, usize::MAX + 1, n as int);
        }
        let layer = match direction {
            Direction::BottomTop | Direction::RightLeft => total - 1 - rank,
            _ => rank,
        };
        let index = count_level(levels, x, v);
        let count = count_level(levels, x, n);
        slots.push(GridSlot { layer, index, count });
        v += 1;
    }
    AutoGrid {
        slots,
        level_count: if total < 1 {
            1
        } else {
            total
        },
        max_per_level: if width < 1 {
            1
        } else {
            width
        },
    }
}

/// In a diagram without a cycle every edge leads to a higher level: if a
/// numbering of the nodes exists along which every edge leads upwards, then
/// the level of each edge's target exceeds the level of its source.
pub proof fn lemma_acyclic_levels(d: DiagramView, rank: Seq<nat>)
    requires
        d.wf(),
        d.order.len() <= usize::MAX,
        topological(d.order.len() as int, endpoints(d), rank),
    ensures
        forall|e: int|
            0 <= e < d.edges.len() ==> node_levels(d)[position(
                d.order,
                (#[trigger] d.edges[e]).from,
            )] < node_levels(d)[position(d.order, d.edges[e].to)],
{
    let n = d.order.len() as int;
    let edges = endpoints(d);
    assert(edges.len() == d.edges.len());
    assert forall|e: int| 0 <= e < d.edges.len() implies d.order.contains(
        (#[trigger] d.edges[e]).from,
    ) && d.order.contains(d.edges[e].to) by {
        let from = d.edges[e].from;
        assert(d.order.contains(from));
    }
    assert forall|e: int| 0 <= e < edges.len() implies (#[trigger] edges[e]).0 < n && edges[e].1
        < n by {
        assert(d.order.contains(d.edges[e].from) && d.order.contains(d.edges[e].to));
        lemma_position(d.order, d.edges[e].from);
        lemma_position(d.order, d.edges[e].to);
    }
    lemma_levels_increase(n, edges, rank);
    assert forall|e: int| 0 <= e < d.edges.len() implies node_levels(d)[position(
        d.order,
        (#[trigger] d.edges[e]).from,
    )] < node_levels(d)[position(d.order, d.edges[e].to)] by {
        assert(d.order.contains(d.edges[e].from) && d.order.contains(d.edges[e].to));
        lemma_position(d.order, d.edges[e].from);
        lemma_position(d.order, d.edges[e].to);
        assert(edges[e].0 == position(d.order, d.edges[e].from));
        assert(edges[e].1 == position(d.order, d.edges[e].to));
    }
}

/// Why a diagram cannot be laid out.
#[derive(Clone, Copy, Debug, PartialEq, Eq, Structural)]
pub enum LayoutError {
    /// An edge starts or ends at a node that is not declared.
    UnknownNode,
    /// The diagram is not valid in another way.
    Invalid,
}

/// Whether every edge of `d` starts and ends at a declared node.
pub open spec fn edges_joined(d: DiagramView) -> bool {
    forall|e: int|
        0 <= e < d.edges.len() ==> d.order.contains(#[trigger] d.edges[e].from) && d.order.contains(
            d.edges[e].to,
        )
}

impl Diagram {
    /// Whether every edge starts and ends at a declared node.
    pub fn edges_are_joined(&self) -> (r: bool)
        ensures
            r == edges_joined(self@),
    {
        let ghost d = self@;
        let mut e: usize = 0;
        while e < self.edges.len()
            invariant
                e <= self.edges.len(),
                d == self@,
                forall|j: int|
                    0 <= j < e ==> d.order.contains(#[trigger] d.edges[j].from) && d.order.contains(
                        d.edges[j].to,
                    ),
            decreases self.edges.len() - e,
        {
            let edge = &self.edges[e];
            proof {
                self.lemma_view_parts();
            }
            if position_of(&self.order, &edge.from).is_none() || position_of(
                &self.order,
                &edge.to,
            ).is_none() {
                let ghost from = d.edges[e as int].from;
                assert(!(d.order.contains(from) && d.order.contains(d.edges[e as int].to)));
                return false;
            }
            proof {
                assert(d.edges[e as int].from == edge.from@);
                assert(d.edges[e as int].to == edge.to@);
                assert forall|j: int| 0 <= j < e + 1 implies d.order.contains(
                    #[trigger] d.edges[j].from,
                ) && d.order.contains(d.edges[j].to) by {
                    if j < e {
                        let from = d.edges[j].from;
                        assert(d.order.contains(from));
                    }
                }
            }
            e += 1;
        }
        proof {
            self.lemma_view_parts();
            assert forall|j: int| 0 <= j < d.edges.len() implies d.order.contains(
                #[trigger] d.edges[j].from,
            ) && d.order.contains(d.edges[j].to) by {
                let from = d.edges[j].from;
                assert(d.order.contains(from));
            }
        }
        true
    }

    /// The grid of the automatic layout of any diagram: fails for a diagram
    /// with an edge at a node that is not declared, and for a diagram that
    /// is not valid in another way; succeeds for every other diagram.
    pub fn checked_auto_layout(&self) -> (r: Result<AutoGrid, LayoutError>)
        ensures
            match r {
                Ok(grid) => self.wf() && grid.slots@.len() == self.order@.len() && is_auto_layout(
                    self@,
                    grid,
                ),
                Err(LayoutError::UnknownNode) => !edges_joined(self@),
                Err(LayoutError::Invalid) => edges_joined(self@) && !self.wf(),
            },
    {
        if !self.edges_are_joined() {
            return Err(LayoutError::UnknownNode);
        }
        if !self.is_well_formed() {
            return Err(LayoutError::Invalid);
        }
        Ok(self.compute_auto_layout())
    }
}

} // verus!
