//! A cursor that walks the trees of all layers as if they were one tree.
//!
//! The cursor stands at a node of one layer's tree. Going up from the root of
//! a layer leads into the enclosing layer, going down at a node from whose
//! span another layer was parsed leads into that layer.

use crate::injection::InjectionIndex;
use crate::layer::{
    same_layer, store_get, store_iter, store_layers, store_order, Forest, Injection, Layer,
    LayerId, LayerStore, Position,
};
use crate::tree::SyntaxNode;
use vstd::prelude::*;

verus! {

pub struct TreeCursor<'a> {
    layers: &'a LayerStore,
    root: LayerId,
    current: LayerId,
    injection_ranges: InjectionIndex,
    cursor: usize,
}

impl<'a> TreeCursor<'a> {
    /// The layers that the cursor walks.
    pub closed spec fn forest(&self) -> Forest {
        Forest {
            layers: store_layers(*self.layers),
            order: store_order(*self.layers),
            root: self.root,
        }
    }

    /// Where the cursor stands.
    pub closed spec fn pos(&self) -> Position {
        Position { layer: self.current, node: self.cursor as int }
    }

    /// The regions that the cursor enters another layer at.
    pub closed spec fn injections(&self) -> Seq<Injection> {
        self.injection_ranges@
    }

    /// The cursor's index of the injections is sound.
    pub closed spec fn indexed(&self) -> bool {
        self.injection_ranges.wf()
    }

    /// The cursor stands at a node of a forest and knows the forest's
    /// injections.
    pub open spec fn wf(&self) -> bool {
        &&& self.forest().wf()
        &&& self.forest().has(self.pos())
        &&& self.indexed()
        &&& self.injections() == self.forest().injections()
    }

    /// A cursor at the root of the layer `root`.
    pub(crate) fn new(
        layers: &'a LayerStore,
        root: LayerId,
        injection_ranges: InjectionIndex,
    ) -> (cursor: Self)
        requires
            (Forest { layers: store_layers(*layers), order: store_order(*layers), root }).wf(),
            injection_ranges.wf(),
            injection_ranges@ == (Forest {
                layers: store_layers(*layers),
                order: store_order(*layers),
                root,
            }).injections(),
        ensures
            cursor.wf(),
            cursor.forest() == (Forest {
                layers: store_layers(*layers),
                order: store_order(*layers),
                root,
            }),
            cursor.pos() == (Position { layer: root, node: 0 }),
    {
        let cursor = Self { layers, root, current: root, injection_ranges, cursor: 0 };
        proof {
            assert(cursor.forest().layer_ok(root));
        }
        cursor
    }

    /// The layer that the cursor stands in.
    fn current_layer(&self) -> (layer: &'a Layer)
        requires
            self.wf(),
        ensures
            *layer == self.forest().layers[self.pos().layer],
            layer.tree.wf(),
            self.pos().node < layer.tree@.len(),
    {
        proof {
            assert(self.forest().layer_ok(self.current));
        }
        store_get(self.layers, self.current).unwrap()
    }

    /// The identifier of the layer that the cursor stands in.
    pub fn layer(&self) -> (id: LayerId)
        ensures
            id == self.pos().layer,
    {
        self.current
    }

    /// The node that the cursor stands at.
    pub fn node(&self) -> (n: SyntaxNode)
        requires
            self.wf(),
        ensures
            n == self.forest().node(self.pos()),
    {
        self.current_layer().tree.node(self.cursor)
    }

    /// Moves to the position above, if there is one: the node's parent, or,
    /// from the root of a layer other than the root layer, the smallest node
    /// of the enclosing layer that spans the region the layer covers.
    /// Returns whether the cursor moved.
    pub fn goto_parent(&mut self) -> (moved: bool)
        requires
            old(self).wf(),
        ensures
            final(self).wf(),
            final(self).forest() == old(self).forest(),
            moved == old(self).forest().parent_of(old(self).pos()).is_some(),
            final(self).pos() == match old(self).forest().parent_of(old(self).pos()) {
                Some(p) => p,
                None => old(self).pos(),
            },
    {
        let layer = self.current_layer();
        if let Some(parent) = layer.tree.parent(self.cursor) {
            self.cursor = parent;
            return true;
        }
        // Already on the root layer: there is nothing above.

        if same_layer(self.current, self.root) {
            return false;
        }
        proof {
            assert(self.forest().layer_ok(self.current));
        }
        let parent_id = layer.parent.unwrap();
        proof {
            assert(self.forest().layer_ok(parent_id));
        }
        let parent_layer = store_get(self.layers, parent_id).unwrap();
        let node = parent_layer.tree.descendant_for_byte_range(0, layer.start, layer.end);
        self.current = parent_id;
        self.cursor = node;
        true
    }

    /// Moves to the position below, if there is one: the root of the layer
    /// that was parsed from exactly the node's span, else the node's first
    /// child. Returns whether the cursor moved.
    pub fn goto_first_child(&mut self) -> (moved: bool)
        requires
            old(self).wf(),
        ensures
            final(self).wf(),
            final(self).forest() == old(self).forest(),
            moved == old(self).forest().first_child_of(old(self).pos()).is_some(),
            final(self).pos() == match old(self).forest().first_child_of(old(self).pos()) {
                Some(p) => p,
                None => old(self).pos(),
            },
    {
        let layer = self.current_layer();
        let n = layer.tree.node(self.cursor);
        if let Some(layer_id) = self.injection_ranges.get(n.start, n.end) {
            proof {
                self.forest().lemma_injected_layer(
                    self.forest().order.len() as int,
                    n.start as int,
                    n.end as int,
                );
                assert(self.forest().layer_ok(layer_id));
            }
            self.current = layer_id;
            self.cursor = 0;
            true
        } else if let Some(child) = layer.tree.first_child(self.cursor) {
            self.cursor = child;
            true
        } else {
            false
        }
    }

    /// Moves to the sibling to the right, within the same tree. Returns
    /// whether the cursor moved.
    pub fn goto_next_sibling(&mut self) -> (moved: bool)
        requires
            old(self).wf(),
        ensures
            final(self).wf(),
            final(self).forest() == old(self).forest(),
            moved == old(self).forest().next_sibling_of(old(self).pos()).is_some(),
            final(self).pos() == match old(self).forest().next_sibling_of(old(self).pos()) {
                Some(p) => p,
                None => old(self).pos(),
            },
    {
        if let Some(sibling) = self.current_layer().tree.next_sibling(self.cursor) {
            self.cursor = sibling;
            true
        } else {
            false
        }
    }

    /// Moves to the sibling to the left, within the same tree. Returns
    /// whether the cursor moved.
    pub fn goto_prev_sibling(&mut self) -> (moved: bool)
        requires
            old(self).wf(),
        ensures
            final(self).wf(),
            final(self).forest() == old(self).forest(),
            moved == old(self).forest().prev_sibling_of(old(self).pos()).is_some(),
            final(self).pos() == match old(self).forest().prev_sibling_of(old(self).pos()) {
                Some(p) => p,
                None => old(self).pos(),
            },
    {
        if let Some(sibling) = self.current_layer().tree.prev_sibling(self.cursor) {
            self.cursor = sibling;
            true
        } else {
            false
        }
    }

    /// Moves to the sibling on the side that `forward` names; from a node
    /// that has none, to the sibling of the position above. Where that has
    /// none either, or there is no position above, the cursor is left where
    /// it began. Returns whether the cursor moved.
    pub(crate) fn step_to_sibling(&mut self, forward: bool) -> (moved: bool)
        requires
            old(self).wf(),
        ensures
            final(self).wf(),
            final(self).forest() == old(self).forest(),
            final(self).pos() == old(self).forest().sibling_step(old(self).pos(), forward),
            !moved ==> final(self).pos() == old(self).pos(),
    {
        if self.goto_sibling(forward) {
            return true;
        }
        let layer = self.current;
        let node = self.cursor;
        if !self.goto_parent() {
            return false;
        }
        if self.goto_sibling(forward) {
            return true;
        }
        self.current = layer;
        self.cursor = node;
        false
    }

    /// Moves to the sibling on the side that `forward` names, within the
    /// same tree. Returns whether the cursor moved.
    fn goto_sibling(&mut self, forward: bool) -> (moved: bool)
        requires
            old(self).wf(),
        ensures
            final(self).wf(),
            final(self).forest() == old(self).forest(),
            moved == old(self).forest().sibling_of(old(self).pos(), forward).is_some(),
            final(self).pos() == match old(self).forest().sibling_of(old(self).pos(), forward) {
                Some(p) => p,
                None => old(self).pos(),
            },
    {
        if forward {
            self.goto_next_sibling()
        } else {
            self.goto_prev_sibling()
        }
    }

    /// Moves to the smallest node that spans `start..end` in the innermost
    /// layer that covers the range: the search begins with the root layer,
    /// moves to each layer in turn that covers the range and lies deeper
    /// than the one it holds, and then enters that layer's tree from its
    /// root.
    pub fn reset_to_byte_range(&mut self, start: usize, end: usize)
        requires
            old(self).wf(),
        ensures
            final(self).wf(),
            final(self).forest() == old(self).forest(),
            final(self).pos() == old(self).forest().after_reset(
                old(self).pos(),
                start as int,
                end as int,
            ),
            old(self).forest().deepest_for(final(self).pos().layer, start as int, end as int),
    {
        let ghost forest = self.forest();
        proof {
            assert(forest.layer_ok(self.root));
            forest.lemma_innermost_is_deepest(start as int, end as int);
        }
        let mut container_id = self.root;
        let mut container_depth = store_get(self.layers, self.root).unwrap().depth;
        let listed = store_iter(self.layers);
        let mut i: usize = 0;
        while i < listed.len()
            invariant
                i <= listed@.len(),
                forest.wf(),
                forest == self.forest(),
                listed@.len() == forest.order.len(),
                forall|k: int|
                    0 <= k < listed@.len() ==> (#[trigger] listed@[k]).0 == forest.order[k]
                        && forest.layers.contains_key(listed@[k].0) && forest.layers[listed@[k].0]
                        == *listed@[k].1,
                container_id == forest.innermost_upto(i as int, start as int, end as int),
                forest.layers.contains_key(container_id),
                container_depth == forest.layers[container_id].depth,
            decreases listed@.len() - i,
        {
            let layer_id = listed[i].0;
            let layer = listed[i].1;
            if layer.depth > container_depth && layer.contains_byte_range(start, end) {
                container_id = layer_id;
                container_depth = layer.depth;
            }
            i = i + 1;
        }
        proof {
            assert(forest.layer_ok(container_id));
        }
        let root = &store_get(self.layers, container_id).unwrap().tree;
        let node = root.descendant_for_byte_range(0, start, end);
        self.current = container_id;
        self.cursor = node;
    }
}

} // verus!
