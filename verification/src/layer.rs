//! Language layers and the store that holds them.
//!
//! A document is parsed as a forest: one tree for the document itself and one
//! for every region that is written in another language. Each tree lives in a
//! layer, and the layers live in a slot map that hands out a stable
//! identifier for each of them.

use crate::tree::{descend, lemma_descend, node_ok, nodes_wf, SyntaxNode, SyntaxTree};
use slotmap::{DefaultKey, HopSlotMap};
use vstd::prelude::*;

verus! {

/// `slotmap::DefaultKey`, the key under which a slot map stores a value.
#[verifier::external_type_specification]
#[verifier::external_body]
pub struct ExDefaultKey(DefaultKey);

/// Identifier of a layer in the store.
pub type LayerId = DefaultKey;

/// One language region of the document with its parse tree.
pub struct Layer {
    /// Nesting depth below the document's root layer, which has depth 0.
    pub depth: u32,
    /// The enclosing layer, absent only for the root layer.
    pub parent: Option<LayerId>,
    /// First byte of the region that the layer covers.
    pub start: usize,
    /// One past the last byte of the region that the layer covers.
    pub end: usize,
    /// The layer's parse tree.
    pub tree: SyntaxTree,
}

impl Layer {
    /// Whether the layer's region holds the byte range `start..end`.
    pub open spec fn covers(&self, start: int, end: int) -> bool {
        self.start <= start && end <= self.end
    }

    /// Whether the layer's region holds the byte range `start..end`.
    pub fn contains_byte_range(&self, start: usize, end: usize) -> (r: bool)
        ensures
            r == self.covers(start as int, end as int),
    {
        self.start <= start && end <= self.end
    }
}

/// The collection of a document's layers: a `slotmap::HopSlotMap` from
/// identifiers to layers. The map is bounded by the slot map's own key
/// trait, which the verifier does not know; so the field is hidden from it,
/// and what the store holds is told by `store_layers` and `store_order`.
#[verifier::external_body]
pub struct LayerStore {
    slots: HopSlotMap<DefaultKey, Layer>,
}

/// The layers that a store holds, each under its identifier.
pub uninterp spec fn store_layers(store: LayerStore) -> Map<LayerId, Layer>;

/// The identifiers of a store's layers in the order in which the store hands
/// its layers out.
pub uninterp spec fn store_order(store: LayerStore) -> Seq<LayerId>;

/// `listed` holds every layer of `layers` exactly once, under its identifier.
pub open spec fn lists_all(listed: Seq<(LayerId, &Layer)>, layers: Map<LayerId, Layer>) -> bool {
    &&& forall|i: int, j: int|
        0 <= i < j < listed.len() ==> (#[trigger] listed[i]).0 != (#[trigger] listed[j]).0
    &&& forall|i: int|
        0 <= i < listed.len() ==> {
            &&& layers.contains_key((#[trigger] listed[i]).0)
            &&& layers[listed[i].0] == *listed[i].1
        }
    &&& forall|id: LayerId|
        layers.contains_key(id) ==> exists|i: int|
            0 <= i < listed.len() && (#[trigger] listed[i]).0 == id
}

/// A new store without layers: `HopSlotMap::new`.
#[verifier::external_body]
pub(crate) fn store_new() -> (store: LayerStore)
    ensures
        forall|id: LayerId| !store_layers(store).contains_key(id),
        store_order(store).len() == 0,
{
    LayerStore { slots: HopSlotMap::new() }
}

/// The number of layers in the store: `HopSlotMap::len`.
#[verifier::external_body]
pub(crate) fn store_len(store: &LayerStore) -> (n: usize)
    ensures
        n == store_order(*store).len(),
{
    store.slots.len()
}

/// Puts a layer into the store: `HopSlotMap::insert`. The layer is stored
/// under an identifier that was not in use, which is returned; what the
/// store held before stays as it was, and the store goes on to hand out
/// exactly the layers it holds. The slot map does not take more than
/// 2^32 - 2 values.
#[verifier::external_body]
pub(crate) fn store_insert(store: &mut LayerStore, layer: Layer) -> (id: LayerId)
    requires
        store_order(*old(store)).len() < 0xffff_fffe,
    ensures
        !store_layers(*old(store)).contains_key(id),
        store_layers(*final(store)) == store_layers(*old(store)).insert(id, layer),
        store_order(*final(store)).len() == store_order(*old(store)).len() + 1,
        forall|k: LayerId|
            store_order(*final(store)).contains(k) <==> store_layers(*final(store)).contains_key(k),
{
    store.slots.insert(layer)
}

/// The layer stored under an identifier: `HopSlotMap::get`.
#[verifier::external_body]
pub(crate) fn store_get<'a>(store: &'a LayerStore, id: LayerId) -> (r: Option<&'a Layer>)
    ensures
        match r {
            Some(l) => store_layers(*store).contains_key(id) && store_layers(*store)[id] == *l,
            None => !store_layers(*store).contains_key(id),
        },
{
    store.slots.get(id)
}

/// All layers with their identifiers: `HopSlotMap::iter`, collected. Every
/// layer of the store comes out once, in the store's order.
#[verifier::external_body]
pub(crate) fn store_iter<'a>(store: &'a LayerStore) -> (r: Vec<(LayerId, &'a Layer)>)
    ensures
        lists_all(r@, store_layers(*store)),
        r@.len() == store_order(*store).len(),
        forall|i: int| 0 <= i < r@.len() ==> (#[trigger] r@[i]).0 == store_order(*store)[i],
{
    store.slots.iter().collect()
}

/// Whether two identifiers are the same: `==` on slot map keys.
#[verifier::external_body]
pub(crate) fn same_layer(a: LayerId, b: LayerId) -> (r: bool)
    ensures
        r == (a == b),
{
    a == b
}

/// A position in the forest: a node of one layer's tree.
pub struct Position {
    /// The layer whose tree holds the node.
    pub layer: LayerId,
    /// The node's position in that tree.
    pub node: int,
}

/// A region that a layer other than the root covers, with that layer.
#[derive(Clone, Copy)]
pub struct Injection {
    /// First byte of the region.
    pub start: usize,
    /// One past the last byte of the region.
    pub end: usize,
    /// The layer that was parsed from the region.
    pub layer: LayerId,
}

/// The layer of the last entry of `list` that covers exactly `start..end`.
pub open spec fn injected_at(list: Seq<Injection>, start: int, end: int) -> Option<LayerId>
    decreases list.len(),
{
    if list.len() == 0 {
        None
    } else if list.last().start == start && list.last().end == end {
        Some(list.last().layer)
    } else {
        injected_at(list.drop_last(), start, end)
    }
}

/// What a store holds, as the navigation sees it: the layers, the order in
/// which the store hands them out, and which of them is the root.
pub struct Forest {
    pub layers: Map<LayerId, Layer>,
    pub order: Seq<LayerId>,
    pub root: LayerId,
}

impl Forest {
    /// The layer under `id` is sound: its tree is a tree, and unless it is
    /// the root layer it names an enclosing layer of the forest that lies
    /// less deep.
    pub open spec fn layer_ok(self, id: LayerId) -> bool {
        let l = self.layers[id];
        &&& nodes_wf(l.tree@)
        &&& id != self.root ==> {
            &&& l.parent matches Some(p)
            &&& self.layers.contains_key(p)
            &&& self.layers[p].depth < l.depth
        }
    }

    /// The layers form a forest: the root is among them, each of them is
    /// sound, and the order lists the layers of the forest, all of them and
    /// nothing else.
    pub open spec fn wf(self) -> bool {
        &&& self.layers.contains_key(self.root)
        &&& forall|id: LayerId| self.layers.contains_key(id) ==> #[trigger] self.layer_ok(id)
        &&& forall|i: int|
            0 <= i < self.order.len() ==> self.layers.contains_key(#[trigger] self.order[i])
        &&& forall|id: LayerId| self.layers.contains_key(id) ==> self.order.contains(id)
    }

    /// `pos` names a node of the forest.
    pub open spec fn has(self, pos: Position) -> bool {
        &&& self.layers.contains_key(pos.layer)
        &&& 0 <= pos.node < self.layers[pos.layer].tree@.len()
    }

    /// The node at `pos`.
    pub open spec fn node(self, pos: Position) -> SyntaxNode {
        self.layers[pos.layer].tree@[pos.node]
    }

    /// The regions of the first `n` layers in the store's order, the root
    /// layer left out.
    pub open spec fn injections_upto(self, n: int) -> Seq<Injection>
        decreases n,
    {
        if n <= 0 {
            Seq::empty()
        } else {
            let rest = self.injections_upto(n - 1);
            let id = self.order[n - 1];
            if id == self.root {
                rest
            } else {
                rest.push(
                    Injection { start: self.layers[id].start, end: self.layers[id].end, layer: id },
                )
            }
        }
    }

    /// The regions that the layers other than the root cover, in the store's
    /// order.
    pub open spec fn injections(self) -> Seq<Injection> {
        self.injections_upto(self.order.len() as int)
    }

    /// A layer that is found under a region in the injections is a layer of
    /// the forest other than the root, and covers that region.
    pub proof fn lemma_injected_layer(self, n: int, start: int, end: int)
        requires
            self.wf(),
            0 <= n <= self.order.len(),
        ensures
            injected_at(self.injections_upto(n), start, end) matches Some(id) ==> {
                &&& self.layers.contains_key(id)
                &&& id != self.root
                &&& self.layers[id].start == start
                &&& self.layers[id].end == end
            },
        decreases n,
    {
        if n > 0 {
            self.lemma_injected_layer(n - 1, start, end);
            let rest = self.injections_upto(n - 1);
            let id = self.order[n - 1];
            if id != self.root {
                let entry = Injection {
                    start: self.layers[id].start,
                    end: self.layers[id].end,
                    layer: id,
                };
                assert(rest.push(entry).drop_last() == rest);
                assert(rest.push(entry).last() == entry);
            }
        }
    }

    /// The layer that a search for `start..end` settles on after it has seen
    /// the first `n` layers: it begins with the root layer and moves to each
    /// layer in turn that covers the range and lies deeper than the one it
    /// holds.
    pub open spec fn innermost_upto(self, n: int, start: int, end: int) -> LayerId
        decreases n,
    {
        if n <= 0 {
            self.root
        } else {
            let best = self.innermost_upto(n - 1, start, end);
            let id = self.order[n - 1];
            if self.layers[id].depth > self.layers[best].depth && self.layers[id].covers(
                start,
                end,
            ) {
                id
            } else {
                best
            }
        }
    }

    /// The innermost layer for `start..end`: a deepest layer among those that
    /// cover the range, the root layer if none lies deeper than it.
    pub open spec fn innermost(self, start: int, end: int) -> LayerId {
        self.innermost_upto(self.order.len() as int, start, end)
    }

    /// Where a cursor stands after it was reset to `start..end`: in the
    /// innermost layer, at the smallest node that spans the range.
    pub open spec fn entry(self, start: int, end: int) -> Position {
        let id = self.innermost(start, end);
        Position { layer: id, node: descend(self.layers[id].tree@, 0, start, end) }
    }

    /// Where a cursor that stands at `pos` stands after it was reset to
    /// `start..end`: where every cursor stands after that.
    pub open spec fn after_reset(self, pos: Position, start: int, end: int) -> Position {
        self.entry(start, end)
    }

    /// The position above `pos`: its parent in the tree, or, from the root
    /// of a layer other than the root layer, the smallest node of the
    /// enclosing layer that spans the region the layer covers.
    pub open spec fn parent_of(self, pos: Position) -> Option<Position> {
        let l = self.layers[pos.layer];
        match self.node(pos).parent {
            Some(p) => Some(Position { layer: pos.layer, node: p as int }),
            None => if pos.layer == self.root {
                None
            } else {
                match l.parent {
                    Some(up) => Some(
                        Position {
                            layer: up,
                            node: descend(self.layers[up].tree@, 0, l.start as int, l.end as int),
                        },
                    ),
                    None => None,
                }
            },
        }
    }

    /// The position below `pos`: the root of the layer that was parsed from
    /// exactly the node's span, if there is one, else the node's first
    /// child.
    pub open spec fn first_child_of(self, pos: Position) -> Option<Position> {
        let n = self.node(pos);
        match injected_at(self.injections(), n.start as int, n.end as int) {
            Some(id) => Some(Position { layer: id, node: 0 }),
            None => match n.first_child {
                Some(c) => Some(Position { layer: pos.layer, node: c as int }),
                None => None,
            },
        }
    }

    /// `up` lies above `pos`: in a layer of lesser depth, or in the same
    /// tree at an earlier position.
    pub open spec fn above(self, up: Position, pos: Position) -> bool {
        ||| self.layers[up.layer].depth < self.layers[pos.layer].depth
        ||| (up.layer == pos.layer && 0 <= up.node < pos.node)
    }

    /// The position above a node of the forest is a node of the forest and
    /// lies above it.
    pub proof fn lemma_parent_above(self, pos: Position)
        requires
            self.wf(),
            self.has(pos),
        ensures
            self.parent_of(pos) matches Some(up) ==> self.has(up) && self.above(up, pos),
    {
        assert(self.layer_ok(pos.layer));
        assert(node_ok(self.layers[pos.layer].tree@, pos.node));
        if self.node(pos).parent is None && pos.layer != self.root {
            let l = self.layers[pos.layer];
            let up = l.parent.unwrap();
            assert(self.layer_ok(up));
            lemma_descend(self.layers[up].tree@, 0, l.start as int, l.end as int);
        }
    }

    /// The position below a node of the forest is a node of the forest.
    pub proof fn lemma_first_child_has(self, pos: Position)
        requires
            self.wf(),
            self.has(pos),
        ensures
            self.first_child_of(pos) matches Some(c) ==> self.has(c),
    {
        assert(self.layer_ok(pos.layer));
        assert(node_ok(self.layers[pos.layer].tree@, pos.node));
        let n = self.node(pos);
        self.lemma_injected_layer(self.order.len() as int, n.start as int, n.end as int);
        if let Some(id) = injected_at(self.injections(), n.start as int, n.end as int) {
            assert(self.layer_ok(id));
        }
    }

    /// The layer that a search settles on is a layer of the forest: the root
    /// layer, or a layer that covers the range and lies deeper than the
    /// root layer. No layer that covers the range and was seen by the search
    /// lies deeper than it.
    pub proof fn lemma_innermost(self, n: int, start: int, end: int)
        requires
            self.wf(),
            0 <= n <= self.order.len(),
        ensures
            self.layers.contains_key(self.innermost_upto(n, start, end)),
            self.innermost_upto(n, start, end) != self.root ==> {
                &&& self.layers[self.innermost_upto(n, start, end)].covers(start, end)
                &&& self.layers[self.innermost_upto(n, start, end)].depth
                    > self.layers[self.root].depth
            },
            self.layers[self.innermost_upto(n, start, end)].depth >= self.layers[self.root].depth,
            forall|i: int|
                0 <= i < n && self.layers[#[trigger] self.order[i]].covers(start, end)
                    ==> self.layers[self.order[i]].depth <= self.layers[self.innermost_upto(
                    n,
                    start,
                    end,
                )].depth,
        decreases n,
    {
        if n > 0 {
            self.lemma_innermost(n - 1, start, end);
        }
    }

    /// Whether the layer under `id` is a deepest layer for `start..end`: a
    /// layer of the forest that is the root layer or covers the range, and
    /// than which no layer of the forest that covers the range lies deeper.
    pub open spec fn deepest_for(self, id: LayerId, start: int, end: int) -> bool {
        &&& self.layers.contains_key(id)
        &&& id != self.root ==> self.layers[id].covers(start, end)
        &&& forall|other: LayerId|
            self.layers.contains_key(other) && (#[trigger] self.layers[other]).covers(start, end)
                ==> self.layers[other].depth <= self.layers[id].depth
    }

    /// The innermost layer for a range is a deepest layer for it among all
    /// layers of the forest.
    pub proof fn lemma_innermost_is_deepest(self, start: int, end: int)
        requires
            self.wf(),
        ensures
            self.deepest_for(self.innermost(start, end), start, end),
    {
        self.lemma_innermost(self.order.len() as int, start, end);
        let best = self.innermost(start, end);
        assert forall|other: LayerId|
            self.layers.contains_key(other) && (#[trigger] self.layers[other]).covers(
                start,
                end,
            ) implies self.layers[other].depth <= self.layers[best].depth by {
            assert(self.order.contains(other));
            let i = choose|i: int| 0 <= i < self.order.len() && self.order[i] == other;
            assert(self.layers[self.order[i]].covers(start, end));
        }
    }

    /// The injections hold an entry for the region of every layer but the
    /// root layer that is among the first `n` of the order.
    pub proof fn lemma_injections_hold(self, n: int, i: int)
        requires
            self.wf(),
            0 <= i < n <= self.order.len(),
            self.order[i] != self.root,
        ensures
            injected_at(
                self.injections_upto(n),
                self.layers[self.order[i]].start as int,
                self.layers[self.order[i]].end as int,
            ) is Some,
        decreases n,
    {
        let rest = self.injections_upto(n - 1);
        let id = self.order[n - 1];
        if id != self.root {
            let entry = Injection {
                start: self.layers[id].start,
                end: self.layers[id].end,
                layer: id,
            };
            assert(rest.push(entry).drop_last() == rest);
            assert(rest.push(entry).last() == entry);
        }
        if i < n - 1 {
            self.lemma_injections_hold(n - 1, i);
        }
    }

    /// The region of every layer of the forest but the root layer is found
    /// in the injections.
    pub proof fn lemma_injections_complete(self, id: LayerId)
        requires
            self.wf(),
            self.layers.contains_key(id),
            id != self.root,
        ensures
            injected_at(
                self.injections(),
                self.layers[id].start as int,
                self.layers[id].end as int,
            ) is Some,
    {
        assert(self.order.contains(id));
        let i = choose|i: int| 0 <= i < self.order.len() && self.order[i] == id;
        self.lemma_injections_hold(self.order.len() as int, i);
    }

    /// A cursor that was reset stands at a node of the forest.
    pub proof fn lemma_entry_has(self, start: int, end: int)
        requires
            self.wf(),
        ensures
            self.has(self.entry(start, end)),
    {
        self.lemma_innermost(self.order.len() as int, start, end);
        let id = self.innermost(start, end);
        assert(self.layer_ok(id));
        lemma_descend(self.layers[id].tree@, 0, start, end);
    }

    /// The position of the sibling to the right, in the same tree.
    pub open spec fn next_sibling_of(self, pos: Position) -> Option<Position> {
        match self.node(pos).next_sibling {
            Some(k) => Some(Position { layer: pos.layer, node: k as int }),
            None => None,
        }
    }

    /// The position of the sibling to the left, in the same tree.
    pub open spec fn prev_sibling_of(self, pos: Position) -> Option<Position> {
        match self.node(pos).prev_sibling {
            Some(k) => Some(Position { layer: pos.layer, node: k as int }),
            None => None,
        }
    }
}

} // verus!
