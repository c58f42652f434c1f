//! Manual overrides of a layout: node positions, edge waypoints and styles,
//! each kept in a table from an identifier to a value.
//!
//! The tables hold coordinates without reading them: the type `P` of a
//! point is the caller's.

use vstd::prelude::*;
use crate::definition::{edge_id, edge_identifier};
use crate::model::{Diagram, EdgeKind, EdgeView};
use crate::text::{lemma_position, position, position_of, texts};
use crate::validity::all_distinct;

verus! {

/// A table from identifiers to values, in insertion order. No identifier
/// occurs twice.
#[derive(Clone, Debug)]
pub struct Table<V> {
    pub keys: Vec<String>,
    pub values: Vec<V>,
}

/// The interior waypoints that replace the route of an edge.
#[derive(Clone, Debug)]
pub struct EdgeOverride<P> {
    pub points: Vec<P>,
}

/// The colours that replace those of a node; `None` keeps the default.
#[derive(Clone, Debug)]
pub struct NodeStyleOverride {
    pub fill: Option<String>,
    pub stroke: Option<String>,
    pub text: Option<String>,
}

/// Where an edge carries arrowheads.
#[derive(Clone, Copy, Debug, PartialEq, Eq, Structural)]
pub enum EdgeArrowDirection {
    Forward,
    Backward,
    Both,
    Neither,
}

/// The line, colour and arrowheads that replace those of an edge; `None`
/// keeps the default.
#[derive(Clone, Debug)]
pub struct EdgeStyleOverride {
    pub line: Option<EdgeKind>,
    pub color: Option<String>,
    pub arrow: Option<EdgeArrowDirection>,
}

/// The manual overrides of a layout, by node id and by edge identifier.
#[derive(Clone, Debug)]
pub struct LayoutOverrides<P> {
    pub nodes: Table<P>,
    pub edges: Table<EdgeOverride<P>>,
    pub node_styles: Table<NodeStyleOverride>,
    pub edge_styles: Table<EdgeStyleOverride>,
}

/// Whether `key` occurs in `allowed`.
pub open spec fn listed(allowed: Seq<Seq<char>>, key: Seq<char>) -> bool {
    allowed.contains(key)
}

/// Those among the first `upto` keys that occur in `allowed`.
pub open spec fn kept_keys(keys: Seq<Seq<char>>, allowed: Seq<Seq<char>>, upto: int) -> Seq<
    Seq<char>,
>
    decreases upto,
{
    if upto <= 0 {
        Seq::empty()
    } else if listed(allowed, keys[upto - 1]) {
        kept_keys(keys, allowed, upto - 1).push(keys[upto - 1])
    } else {
        kept_keys(keys, allowed, upto - 1)
    }
}

/// The values of those among the first `upto` keys that occur in `allowed`.
pub open spec fn kept_values<V>(
    keys: Seq<Seq<char>>,
    values: Seq<V>,
    allowed: Seq<Seq<char>>,
    upto: int,
) -> Seq<V>
    decreases upto,
{
    if upto <= 0 {
        Seq::empty()
    } else if listed(allowed, keys[upto - 1]) {
        kept_values(keys, values, allowed, upto - 1).push(values[upto - 1])
    } else {
        kept_values(keys, values, allowed, upto - 1)
    }
}

proof fn lemma_kept_len<V>(keys: Seq<Seq<char>>, values: Seq<V>, allowed: Seq<Seq<char>>, upto: int)
    requires
        0 <= upto,
    ensures
        kept_keys(keys, allowed, upto).len() == kept_values(keys, values, allowed, upto).len(),
        kept_keys(keys, allowed, upto).len() <= upto,
    decreases upto,
{
    if upto > 0 {
        lemma_kept_len(keys, values, allowed, upto - 1);
    }
}

/// Every kept key is one of the first `upto` keys.
proof fn lemma_kept_from(keys: Seq<Seq<char>>, allowed: Seq<Seq<char>>, upto: int, k: int) -> (i:
    int)
    requires
        0 <= upto <= keys.len(),
        0 <= k < kept_keys(keys, allowed, upto).len(),
    ensures
        0 <= i < upto,
        keys[i] == kept_keys(keys, allowed, upto)[k],
        k == kept_keys(keys, allowed, i).len(),
        listed(allowed, keys[i]),
    decreases upto,
{
    if listed(allowed, keys[upto - 1]) && k == kept_keys(keys, allowed, upto - 1).len() {
        upto - 1
    } else {
        lemma_kept_from(keys, allowed, upto - 1, k)
    }
}

proof fn lemma_kept_grows(keys: Seq<Seq<char>>, allowed: Seq<Seq<char>>, a: int, b: int)
    requires
        0 <= a <= b,
    ensures
        kept_keys(keys, allowed, a).len() <= kept_keys(keys, allowed, b).len(),
    decreases b,
{
    if a < b {
        lemma_kept_grows(keys, allowed, a, b - 1);
    }
}

/// Keys that are distinct stay distinct when some are dropped.
proof fn lemma_kept_distinct(keys: Seq<Seq<char>>, allowed: Seq<Seq<char>>)
    requires
        forall|i: int, j: int| 0 <= i < j < keys.len() ==> keys[i] != keys[j],
    ensures
        forall|k: int, l: int|
            0 <= k < l < kept_keys(keys, allowed, keys.len() as int).len() ==> kept_keys(
                keys,
                allowed,
                keys.len() as int,
            )[k] != kept_keys(keys, allowed, keys.len() as int)[l],
{
    let n = keys.len() as int;
    let kept = kept_keys(keys, allowed, n);
    assert forall|k: int, l: int| 0 <= k < l < kept.len() implies kept[k] != kept[l] by {
        let i = lemma_kept_from(keys, allowed, n, k);
        let j = lemma_kept_from(keys, allowed, n, l);
        if i >= j {
            lemma_kept_grows(keys, allowed, j, i);
        }
    }
}

impl<V> Table<V> {
    /// The validity of a table: one value per key, and no key twice.
    pub open spec fn wf(&self) -> bool {
        &&& self.keys@.len() == self.values@.len()
        &&& forall|i: int, j: int|
            0 <= i < j < self.keys@.len() ==> texts(self.keys@)[i] != texts(self.keys@)[j]
    }

    /// Whether the table has an entry for `key`.
    pub open spec fn has(&self, key: Seq<char>) -> bool {
        texts(self.keys@).contains(key)
    }

    /// The value of `key`, where the table has one.
    pub open spec fn value_of(&self, key: Seq<char>) -> V {
        self.values@[position(texts(self.keys@), key)]
    }

    /// A table without entries.
    pub fn new() -> (r: Table<V>)
        ensures
            r.wf(),
            r.keys@.len() == 0,
            forall|key: Seq<char>| !r.has(key),
    {
        let r = Table { keys: Vec::new(), values: Vec::new() };
        assert forall|key: Seq<char>| !r.has(key) by {
            assert(texts(r.keys@).len() == 0);
        }
        r
    }

    /// Whether the table is valid.
    pub fn is_valid(&self) -> (r: bool)
        ensures
            r == self.wf(),
    {
        if self.keys.len() != self.values.len() {
            return false;
        }
        all_distinct(&self.keys)
    }

    /// The number of entries.
    pub fn len(&self) -> (r: usize)
        ensures
            r == self.keys@.len(),
    {
        self.keys.len()
    }

    /// Whether the table has no entry.
    pub fn is_empty(&self) -> (r: bool)
        ensures
            r == (self.keys@.len() == 0),
    {
        self.keys.len() == 0
    }

    /// Whether the table has an entry for `key`.
    pub fn contains_key(&self, key: &String) -> (r: bool)
        ensures
            r == self.has(key@),
    {
        position_of(&self.keys, key).is_some()
    }

    /// The value of `key`, if the table has one.
    pub fn get(&self, key: &String) -> (r: Option<&V>)
        requires
            self.wf(),
        ensures
            match r {
                Some(v) => self.has(key@) && *v == self.value_of(key@),
                None => !self.has(key@),
            },
    {
        match position_of(&self.keys, key) {
            Some(i) => Some(&self.values[i]),
            None => None,
        }
    }

    /// Sets the value of `key`: replaces the value of an entry that exists,
    /// adds an entry at the end otherwise.
    pub fn insert(&mut self, key: String, value: V)
        requires
            old(self).wf(),
        ensures
            final(self).wf(),
            final(self).has(key@),
            final(self).value_of(key@) == value,
            forall|other: Seq<char>|
                other != key@ ==> final(self).has(other) == old(self).has(other) && (old(self).has(
                    other,
                ) ==> final(self).value_of(other) == old(self).value_of(other)),
            texts(final(self).keys@) == if old(self).has(key@) {
                texts(old(self).keys@)
            } else {
                texts(old(self).keys@).push(key@)
            },
            final(self).values@ == if old(self).has(key@) {
                old(self).values@.update(position(texts(old(self).keys@), key@), value)
            } else {
                old(self).values@.push(value)
            },
    {
        let ghost before = texts(self.keys@);
        proof {
            lemma_position(before, key@);
        }
        match position_of(&self.keys, &key) {
            Some(i) => {
                self.values.set(i, value);
                proof {
                    assert forall|other: Seq<char>| other != key@ && old(self).has(
                        other,
                    ) implies self.value_of(other) == old(self).value_of(other) by {
                        lemma_position(before, other);
                    }
                }
            },
            None => {
                self.keys.push(key);
                self.values.push(value);
                proof {
                    let after = texts(self.keys@);
                    assert(after =~= before.push(key@));
                    assert(after[before.len() as int] == key@);
                    lemma_position(after, key@);
                    assert forall|other: Seq<char>| other != key@ implies self.has(other)
                        == old(self).has(other) && (old(self).has(other) ==> self.value_of(other)
                        == old(self).value_of(other)) by {
                        lemma_position(before, other);
                        lemma_position(after, other);
                        if old(self).has(other) {
                            let k = position(before, other);
                            assert(after[k] == other);
                            if position(after, other) != k {
                                assert(after[position(after, other)] == other);
                                assert(before[position(after, other)] == other);
                            }
                        } else if self.has(other) {
                            let k = position(after, other);
                            assert(before[k] == other);
                        }
                    }
                }
            },
        }
    }

    /// Removes the entry of `key`, if there is one, and returns its value.
    /// The other entries keep their values and their order.
    pub fn remove(&mut self, key: &String) -> (r: Option<V>)
        requires
            old(self).wf(),
        ensures
            final(self).wf(),
            !final(self).has(key@),
            match r {
                Some(v) => old(self).has(key@) && v == old(self).value_of(key@),
                None => !old(self).has(key@),
            },
            forall|other: Seq<char>|
                other != key@ ==> final(self).has(other) == old(self).has(other) && (old(self).has(
                    other,
                ) ==> final(self).value_of(other) == old(self).value_of(other)),
            texts(final(self).keys@) == if old(self).has(key@) {
                texts(old(self).keys@).remove(position(texts(old(self).keys@), key@))
            } else {
                texts(old(self).keys@)
            },
            final(self).values@ == if old(self).has(key@) {
                old(self).values@.remove(position(texts(old(self).keys@), key@))
            } else {
                old(self).values@
            },
    {
        let ghost before = texts(self.keys@);
        let ghost values = self.values@;
        proof {
            lemma_position(before, key@);
        }
        match position_of(&self.keys, key) {
            None => None,
            Some(i) => {
                self.keys.remove(i);
                let value = self.values.remove(i);
                proof {
                    let after = texts(self.keys@);
                    assert(after =~= before.remove(i as int));
                    assert(self.values@ =~= values.remove(i as int));
                    assert forall|a: int, b: int| 0 <= a < b < after.len() implies after[a]
                        != after[b] by {
                        let a0 = if a < i { a } else { a + 1 };
                        let b0 = if b < i { b } else { b + 1 };
                        assert(after[a] == before[a0] && after[b] == before[b0]);
                    }
                    assert(!after.contains(key@)) by {
                        if after.contains(key@) {
                            let k = choose|k: int| 0 <= k < after.len() && #[trigger] after[k] == key@;
                            let k0 = if k < i { k } else { k + 1 };
                            assert(before[k0] == before[i as int]);
                        }
                    }
                    assert forall|other: Seq<char>| other != key@ implies self.has(other)
                        == old(self).has(other) && (old(self).has(other) ==> self.value_of(other)
                        == old(self).value_of(other)) by {
                        lemma_position(before, other);
                        lemma_position(after, other);
                        if old(self).has(other) {
                            let k0 = position(before, other);
                            let k = if k0 < i { k0 } else { k0 - 1 };
                            assert(after[k] == other);
                            let p = position(after, other);
                            if p != k {
                                let p0 = if p < i { p } else { p + 1 };
                                assert(before[p0] == other);
                                assert(after[p] == after[k]);
                            }
                        } else if self.has(other) {
                            let p = position(after, other);
                            let p0 = if p < i { p } else { p + 1 };
                            assert(before[p0] == other);
                        }
                    }
                }
                Some(value)
            },
        }
    }

    /// Drops the entries whose key does not occur in `allowed`; the others
    /// keep their order.
    pub fn retain_listed(&mut self, allowed: &Vec<String>)
        requires
            old(self).wf(),
        ensures
            final(self).wf(),
            texts(final(self).keys@) == kept_keys(
                texts(old(self).keys@),
                texts(allowed@),
                old(self).keys@.len() as int,
            ),
            final(self).values@ == kept_values(
                texts(old(self).keys@),
                old(self).values@,
                texts(allowed@),
                old(self).keys@.len() as int,
            ),
    {
        let ghost keys0 = texts(self.keys@);
        let ghost values0 = self.values@;
        let ghost list = texts(allowed@);
        let ghost n = keys0.len() as int;
        let ghost mut seen: int = 0;
        let mut i: usize = 0;
        assert(texts(self.keys@) =~= kept_keys(keys0, list, 0) + keys0.skip(0));
        assert(self.values@ =~= kept_values(keys0, values0, list, 0) + values0.skip(0));
        while i < self.keys.len()
            invariant
                0 <= seen <= n,
                n == keys0.len(),
                n == values0.len(),
                list == texts(allowed@),
                i == kept_keys(keys0, list, seen).len(),
                self.keys@.len() == self.values@.len(),
                texts(self.keys@) == kept_keys(keys0, list, seen) + keys0.skip(seen),
                self.values@ == kept_values(keys0, values0, list, seen) + values0.skip(seen),
            decreases n - seen,
        {
            proof {
                lemma_kept_len(keys0, values0, list, seen);
                assert(texts(self.keys@)[i as int] == keys0.skip(seen)[0]);
            }
            if position_of(allowed, &self.keys[i]).is_some() {
                proof {
                    assert(texts(self.keys@) =~= kept_keys(keys0, list, seen + 1) + keys0.skip(
                        seen + 1,
                    ));
                    assert(self.values@ =~= kept_values(keys0, values0, list, seen + 1)
                        + values0.skip(seen + 1));
                    seen = seen + 1;
                }
                i += 1;
            } else {
                let ghost keys_before = texts(self.keys@);
                let ghost values_before = self.values@;
                self.keys.remove(i);
                self.values.remove(i);
                proof {
                    assert(texts(self.keys@) =~= keys_before.remove(i as int));
                    assert(texts(self.keys@) =~= kept_keys(keys0, list, seen + 1) + keys0.skip(
                        seen + 1,
                    ));
                    assert(self.values@ =~= kept_values(keys0, values0, list, seen + 1)
                        + values0.skip(seen + 1));
                    seen = seen + 1;
                }
            }
        }
        proof {
            lemma_kept_len(keys0, values0, list, seen);
            lemma_kept_len(keys0, values0, list, n);
            assert(seen == n) by {
                assert(texts(self.keys@).len() == i + (n - seen));
            }
            assert(texts(self.keys@) =~= kept_keys(keys0, list, n));
            assert(self.values@ =~= kept_values(keys0, values0, list, n));
            lemma_kept_distinct(keys0, list);
        }
    }
}

impl NodeStyleOverride {
    /// Whether the style sets nothing.
    pub fn is_empty(&self) -> (r: bool)
        ensures
            r == (self.fill is None && self.stroke is None && self.text is None),
    {
        self.fill.is_none() && self.stroke.is_none() && self.text.is_none()
    }
}

impl EdgeStyleOverride {
    /// Whether the style sets nothing.
    pub fn is_empty(&self) -> (r: bool)
        ensures
            r == (self.line is None && self.color is None && self.arrow is None),
    {
        self.line.is_none() && self.color.is_none() && self.arrow.is_none()
    }
}

impl EdgeArrowDirection {
    /// Whether the edge carries an arrowhead at its start.
    pub fn marker_start(&self) -> (r: bool)
        ensures
            r == (*self == EdgeArrowDirection::Backward || *self == EdgeArrowDirection::Both),
    {
        match self {
            EdgeArrowDirection::Backward | EdgeArrowDirection::Both => true,
            _ => false,
        }
    }

    /// Whether the edge carries an arrowhead at its end.
    pub fn marker_end(&self) -> (r: bool)
        ensures
            r == (*self == EdgeArrowDirection::Forward || *self == EdgeArrowDirection::Both),
    {
        match self {
            EdgeArrowDirection::Forward | EdgeArrowDirection::Both => true,
            _ => false,
        }
    }
}

impl<P> LayoutOverrides<P> {
    /// The validity of the overrides: that of their four tables.
    pub open spec fn wf(&self) -> bool {
        self.nodes.wf() && self.edges.wf() && self.node_styles.wf() && self.edge_styles.wf()
    }

    /// Overrides that override nothing.
    pub fn new() -> (r: LayoutOverrides<P>)
        ensures
            r.wf(),
            r.nodes.keys@.len() == 0,
            r.edges.keys@.len() == 0,
            r.node_styles.keys@.len() == 0,
            r.edge_styles.keys@.len() == 0,
    {
        LayoutOverrides {
            nodes: Table::new(),
            edges: Table::new(),
            node_styles: Table::new(),
            edge_styles: Table::new(),
        }
    }

    /// The waypoints that replace the route of the edge `id`, if there are
    /// any: an entry without waypoints counts as absent.
    pub fn edge_waypoints(&self, id: &String) -> (r: Option<&EdgeOverride<P>>)
        requires
            self.wf(),
        ensures
            match r {
                Some(entry) => self.edges.has(id@) && *entry == self.edges.value_of(id@)
                    && entry.points@.len() > 0,
                None => !self.edges.has(id@) || self.edges.value_of(id@).points@.len() == 0,
            },
    {
        match self.edges.get(id) {
            Some(entry) => {
                if entry.points.len() > 0 {
                    Some(entry)
                } else {
                    None
                }
            },
            None => None,
        }
    }

    /// Sets or clears the position that overrides that of the node `id`.
    pub fn set_node(&mut self, id: String, position: Option<P>)
        requires
            old(self).wf(),
        ensures
            final(self).wf(),
            final(self).edges == old(self).edges,
            final(self).node_styles == old(self).node_styles,
            final(self).edge_styles == old(self).edge_styles,
            match position {
                Some(p) => final(self).nodes.has(id@) && final(self).nodes.value_of(id@) == p,
                None => !final(self).nodes.has(id@),
            },
            forall|other: Seq<char>|
                other != id@ ==> final(self).nodes.has(other) == old(self).nodes.has(other) && (old(
                    self,
                ).nodes.has(other) ==> final(self).nodes.value_of(other) == old(
                    self,
                ).nodes.value_of(other)),
    {
        match position {
            Some(p) => {
                self.nodes.insert(id, p);
            },
            None => {
                self.nodes.remove(&id);
            },
        }
    }

    /// Sets or clears the waypoints that override the route of the edge
    /// `id`: an override without waypoints clears the entry.
    pub fn set_edge(&mut self, id: String, waypoints: Option<EdgeOverride<P>>)
        requires
            old(self).wf(),
        ensures
            final(self).wf(),
            final(self).nodes == old(self).nodes,
            final(self).node_styles == old(self).node_styles,
            final(self).edge_styles == old(self).edge_styles,
            match waypoints {
                Some(w) => if w.points@.len() > 0 {
                    final(self).edges.has(id@) && final(self).edges.value_of(id@) == w
                } else {
                    !final(self).edges.has(id@)
                },
                None => !final(self).edges.has(id@),
            },
            forall|other: Seq<char>|
                other != id@ ==> final(self).edges.has(other) == old(self).edges.has(other) && (old(
                    self,
                ).edges.has(other) ==> final(self).edges.value_of(other) == old(
                    self,
                ).edges.value_of(other)),
    {
        match waypoints {
            Some(w) => {
                if w.points.len() > 0 {
                    self.edges.insert(id, w);
                } else {
                    self.edges.remove(&id);
                }
            },
            None => {
                self.edges.remove(&id);
            },
        }
    }

    /// Whether nothing is overridden.
    pub fn is_empty(&self) -> (r: bool)
        ensures
            r == (self.nodes.keys@.len() == 0 && self.edges.keys@.len() == 0
                && self.node_styles.keys@.len() == 0 && self.edge_styles.keys@.len() == 0),
    {
        self.nodes.is_empty() && self.edges.is_empty() && self.node_styles.is_empty()
            && self.edge_styles.is_empty()
    }

    /// Drops what refers to a node that is not in `nodes` or to an edge
    /// whose identifier is not in `edges`.
    pub fn prune(&mut self, nodes: &Vec<String>, edges: &Vec<String>)
        requires
            old(self).wf(),
        ensures
            final(self).wf(),
            texts(final(self).nodes.keys@) == kept_keys(
                texts(old(self).nodes.keys@),
                texts(nodes@),
                old(self).nodes.keys@.len() as int,
            ),
            final(self).nodes.values@ == kept_values(
                texts(old(self).nodes.keys@),
                old(self).nodes.values@,
                texts(nodes@),
                old(self).nodes.keys@.len() as int,
            ),
            texts(final(self).edges.keys@) == kept_keys(
                texts(old(self).edges.keys@),
                texts(edges@),
                old(self).edges.keys@.len() as int,
            ),
            final(self).edges.values@ == kept_values(
                texts(old(self).edges.keys@),
                old(self).edges.values@,
                texts(edges@),
                old(self).edges.keys@.len() as int,
            ),
            texts(final(self).node_styles.keys@) == kept_keys(
                texts(old(self).node_styles.keys@),
                texts(nodes@),
                old(self).node_styles.keys@.len() as int,
            ),
            final(self).node_styles.values@ == kept_values(
                texts(old(self).node_styles.keys@),
                old(self).node_styles.values@,
                texts(nodes@),
                old(self).node_styles.keys@.len() as int,
            ),
            texts(final(self).edge_styles.keys@) == kept_keys(
                texts(old(self).edge_styles.keys@),
                texts(edges@),
                old(self).edge_styles.keys@.len() as int,
            ),
            final(self).edge_styles.values@ == kept_values(
                texts(old(self).edge_styles.keys@),
                old(self).edge_styles.values@,
                texts(edges@),
                old(self).edge_styles.keys@.len() as int,
            ),
    {
        self.nodes.retain_listed(nodes);
        self.edges.retain_listed(edges);
        self.node_styles.retain_listed(nodes);
        self.edge_styles.retain_listed(edges);
    }
}

/// The position of the node `id` once the overrides `table` are applied:
/// the overriding position where there is one, else the automatic one.
pub open spec fn final_position<P>(table: Table<P>, id: Seq<char>, auto: P) -> P {
    if table.has(id) {
        table.value_of(id)
    } else {
        auto
    }
}

/// The final positions of the nodes `order`: for each node the position
/// that `overrides` gives it, or its automatic position `auto[i]` where
/// `overrides` has none. An override for an id that is not in `order` has
/// no effect.
pub fn apply_node_overrides<P: Copy>(order: &Vec<String>, auto: &Vec<P>, overrides: &Table<P>) -> (r:
    Vec<P>)
    requires
        overrides.wf(),
        auto@.len() == order@.len(),
    ensures
        r@.len() == order@.len(),
        forall|i: int|
            0 <= i < order@.len() ==> #[trigger] r@[i] == final_position(
                *overrides,
                order@[i]@,
                auto@[i],
            ),
{
    let mut out: Vec<P> = Vec::new();
    let mut i: usize = 0;
    while i < order.len()
        invariant
            i <= order.len(),
            overrides.wf(),
            auto@.len() == order@.len(),
            out@.len() == i,
            forall|k: int|
                0 <= k < i ==> #[trigger] out@[k] == final_position(
                    *overrides,
                    order@[k]@,
                    auto@[k],
                ),
        decreases order.len() - i,
    {
        match overrides.get(&order[i]) {
            Some(p) => {
                out.push(*p);
            },
            None => {
                out.push(auto[i]);
            },
        }
        i += 1;
    }
    out
}

/// The final positions are a function of the automatic positions and the
/// overrides: two results for the same nodes, positions and overrides are
/// the same.
pub proof fn lemma_final_positions_deterministic<P>(
    order: Seq<Seq<char>>,
    auto: Seq<P>,
    overrides: Table<P>,
    a: Seq<P>,
    b: Seq<P>,
)
    requires
        a.len() == order.len(),
        b.len() == order.len(),
        forall|i: int|
            0 <= i < order.len() ==> #[trigger] a[i] == final_position(overrides, order[i], auto[i]),
        forall|i: int|
            0 <= i < order.len() ==> #[trigger] b[i] == final_position(overrides, order[i], auto[i]),
    ensures
        a == b,
{
    assert(a =~= b);
}

/// The identifiers of the first `upto` edges.
pub open spec fn edge_names(edges: Seq<EdgeView>, upto: int) -> Seq<Seq<char>>
    decreases upto,
{
    if upto <= 0 {
        Seq::empty()
    } else {
        edge_names(edges, upto - 1).push(edge_id(edges[upto - 1]))
    }
}

/// Every key that is kept is listed.
pub proof fn lemma_kept_listed(keys: Seq<Seq<char>>, allowed: Seq<Seq<char>>)
    ensures
        forall|k: int|
            0 <= k < kept_keys(keys, allowed, keys.len() as int).len() ==> allowed.contains(
                #[trigger] kept_keys(keys, allowed, keys.len() as int)[k],
            ),
{
    let n = keys.len() as int;
    assert forall|k: int| 0 <= k < kept_keys(keys, allowed, n).len() implies allowed.contains(
        #[trigger] kept_keys(keys, allowed, n)[k],
    ) by {
        let i = lemma_kept_from(keys, allowed, n, k);
    }
}

impl Diagram {
    /// The identifiers of the edges, in the order of the edges.
    pub fn edge_identifiers(&self) -> (r: Vec<String>)
        ensures
            texts(r@) == edge_names(self@.edges, self@.edges.len() as int),
    {
        let mut out: Vec<String> = Vec::new();
        let mut e: usize = 0;
        assert(texts(out@) =~= edge_names(self@.edges, 0));
        while e < self.edges.len()
            invariant
                e <= self.edges.len(),
                texts(out@) == edge_names(self@.edges, e as int),
            decreases self.edges.len() - e,
        {
            let ghost before = texts(out@);
            let name = edge_identifier(&self.edges[e]);
            out.push(name);
            proof {
                assert(texts(out@) =~= before.push(name@));
            }
            e += 1;
        }
        out
    }
}

impl<P> LayoutOverrides<P> {
    /// Drops what refers to a node or an edge that `diagram` does not have:
    /// afterwards every override of a node names a node of the diagram,
    /// and every override of an edge the identifier of one of its edges.
    pub fn prune_for(&mut self, diagram: &Diagram)
        requires
            old(self).wf(),
        ensures
            final(self).wf(),
            texts(final(self).nodes.keys@) == kept_keys(
                texts(old(self).nodes.keys@),
                diagram@.order,
                old(self).nodes.keys@.len() as int,
            ),
            texts(final(self).edges.keys@) == kept_keys(
                texts(old(self).edges.keys@),
                edge_names(diagram@.edges, diagram@.edges.len() as int),
                old(self).edges.keys@.len() as int,
            ),
            texts(final(self).node_styles.keys@) == kept_keys(
                texts(old(self).node_styles.keys@),
                diagram@.order,
                old(self).node_styles.keys@.len() as int,
            ),
            texts(final(self).edge_styles.keys@) == kept_keys(
                texts(old(self).edge_styles.keys@),
                edge_names(diagram@.edges, diagram@.edges.len() as int),
                old(self).edge_styles.keys@.len() as int,
            ),
            final(self).nodes.values@ == kept_values(
                texts(old(self).nodes.keys@),
                old(self).nodes.values@,
                diagram@.order,
                old(self).nodes.keys@.len() as int,
            ),
            final(self).edges.values@ == kept_values(
                texts(old(self).edges.keys@),
                old(self).edges.values@,
                edge_names(diagram@.edges, diagram@.edges.len() as int),
                old(self).edges.keys@.len() as int,
            ),
            final(self).node_styles.values@ == kept_values(
                texts(old(self).node_styles.keys@),
                old(self).node_styles.values@,
                diagram@.order,
                old(self).node_styles.keys@.len() as int,
            ),
            final(self).edge_styles.values@ == kept_values(
                texts(old(self).edge_styles.keys@),
                old(self).edge_styles.values@,
                edge_names(diagram@.edges, diagram@.edges.len() as int),
                old(self).edge_styles.keys@.len() as int,
            ),
            forall|k: int|
                0 <= k < final(self).nodes.keys@.len() ==> diagram@.order.contains(
                    #[trigger] texts(final(self).nodes.keys@)[k],
                ),
            forall|k: int|
                0 <= k < final(self).node_styles.keys@.len() ==> diagram@.order.contains(
                    #[trigger] texts(final(self).node_styles.keys@)[k],
                ),
            forall|k: int|
                0 <= k < final(self).edges.keys@.len() ==> edge_names(
                    diagram@.edges,
                    diagram@.edges.len() as int,
                ).contains(#[trigger] texts(final(self).edges.keys@)[k]),
            forall|k: int|
                0 <= k < final(self).edge_styles.keys@.len() ==> edge_names(
                    diagram@.edges,
                    diagram@.edges.len() as int,
                ).contains(#[trigger] texts(final(self).edge_styles.keys@)[k]),
    {
        let edges = diagram.edge_identifiers();
        proof {
            let names = edge_names(diagram@.edges, diagram@.edges.len() as int);
            assert(diagram@.order == texts(diagram.order@));
            lemma_kept_listed(texts(self.nodes.keys@), diagram@.order);
            lemma_kept_listed(texts(self.node_styles.keys@), diagram@.order);
            lemma_kept_listed(texts(self.edges.keys@), names);
            lemma_kept_listed(texts(self.edge_styles.keys@), names);
        }
        let ghost node_keys = texts(self.nodes.keys@);
        let ghost style_keys = texts(self.node_styles.keys@);
        let ghost edge_keys = texts(self.edges.keys@);
        let ghost line_keys = texts(self.edge_styles.keys@);
        self.prune(&diagram.order, &edges);
        proof {
            let names = edge_names(diagram@.edges, diagram@.edges.len() as int);
            assert forall|k: int| 0 <= k < self.edges.keys@.len() implies names.contains(
                #[trigger] texts(self.edges.keys@)[k],
            ) by {
                let kept = kept_keys(edge_keys, names, edge_keys.len() as int);
                assert(texts(self.edges.keys@) == kept);
                assert(names.contains(kept[k]));
            }
            assert forall|k: int| 0 <= k < self.edge_styles.keys@.len() implies names.contains(
                #[trigger] texts(self.edge_styles.keys@)[k],
            ) by {
                let kept = kept_keys(line_keys, names, line_keys.len() as int);
                assert(texts(self.edge_styles.keys@) == kept);
                assert(names.contains(kept[k]));
            }
            let ids = diagram@.order;
            assert(ids == texts(diagram.order@));
            assert forall|k: int| 0 <= k < self.nodes.keys@.len() implies ids.contains(
                #[trigger] texts(self.nodes.keys@)[k],
            ) by {
                let kept = kept_keys(node_keys, ids, node_keys.len() as int);
                assert(texts(self.nodes.keys@) == kept);
                assert(ids.contains(kept[k]));
            }
            assert forall|k: int| 0 <= k < self.node_styles.keys@.len() implies ids.contains(
                #[trigger] texts(self.node_styles.keys@)[k],
            ) by {
                let kept = kept_keys(style_keys, ids, style_keys.len() as int);
                assert(texts(self.node_styles.keys@) == kept);
                assert(ids.contains(kept[k]));
            }
        }
    }
}

} // verus!
