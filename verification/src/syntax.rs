//! The syntax of a document: its layers and which of them is the root.

use crate::injection::InjectionIndex;
use crate::layer::{
    lists_all, same_layer, store_get, store_insert, store_iter, store_layers, store_len,
    store_new, store_order, Forest, Layer, LayerId, LayerStore, Position,
};
use crate::tree::SyntaxTree;
use crate::tree_cursor::TreeCursor;
use vstd::prelude::*;

verus! {

/// The parse trees of a document, one per layer.
pub struct Syntax {
    layers: LayerStore,
    root: LayerId,
}

impl Syntax {
    /// The layers as the navigation sees them.
    pub closed spec fn forest(&self) -> Forest {
        Forest {
            layers: store_layers(self.layers),
            order: store_order(self.layers),
            root: self.root,
        }
    }

    /// The layers form a forest.
    pub open spec fn wf(&self) -> bool {
        self.forest().wf()
    }

    /// The syntax of a document with a single layer, which covers
    /// `start..end` and holds `tree`.
    pub fn new(start: usize, end: usize, tree: SyntaxTree) -> (syntax: Syntax)
        requires
            tree.wf(),
        ensures
            syntax.wf(),
            syntax.forest().layers =~= Map::empty().insert(
                syntax.forest().root,
                Layer { depth: 0, parent: None, start, end, tree },
            ),
            syntax.forest().order =~= seq![syntax.forest().root],
    {
        let mut layers = store_new();
        let root = store_insert(&mut layers, Layer { depth: 0, parent: None, start, end, tree });
        let syntax = Syntax { layers, root };
        proof {
            let f = syntax.forest();
            assert(f.layers.contains_key(root));
            assert forall|id: LayerId| f.layers.contains_key(id) implies #[trigger] f.layer_ok(
                id,
            ) by {
                assert(id == root);
            }
            assert forall|i: int| 0 <= i < f.order.len() implies f.layers.contains_key(
                #[trigger] f.order[i],
            ) by {
                assert(f.order.contains(f.order[i]));
            }
            assert(f.layers.contains_key(f.order[0]));
        }
        syntax
    }

    /// The root layer's identifier.
    pub fn root(&self) -> (id: LayerId)
        ensures
            id == self.forest().root,
    {
        self.root
    }

    /// The layer under `id`, if the document has one.
    pub fn layer(&self, id: LayerId) -> (r: Option<&Layer>)
        ensures
            match r {
                Some(l) => self.forest().layers.contains_key(id) && self.forest().layers[id] == *l,
                None => !self.forest().layers.contains_key(id),
            },
    {
        store_get(&self.layers, id)
    }

    /// All layers with their identifiers, each of them once.
    pub fn layers(&self) -> (r: Vec<(LayerId, &Layer)>)
        ensures
            lists_all(r@, self.forest().layers),
            r@.len() == self.forest().order.len(),
            forall|i: int| 0 <= i < r@.len() ==> (#[trigger] r@[i]).0 == self.forest().order[i],
    {
        store_iter(&self.layers)
    }

    /// The regions that the layers other than the root layer cover, each
    /// with its layer.
    pub fn injections(&self) -> (index: InjectionIndex)
        ensures
            index.wf(),
            index@ == self.forest().injections(),
    {
        let listed = store_iter(&self.layers);
        InjectionIndex::build(&listed, self.root, Ghost(self.forest()))
    }

    /// Whether a layer can be added below `parent`: the parent is a layer of
    /// the forest, its depth leaves room for one more level, and the store
    /// is not full.
    pub open spec fn can_add_layer(&self, parent: LayerId) -> bool {
        &&& self.forest().layers.contains_key(parent)
        &&& self.forest().layers[parent].depth < u32::MAX
        &&& self.forest().order.len() < 0xffff_fffe
    }

    /// Adds a layer that covers `start..end`, holds `tree` and lies within
    /// the layer `parent`, one level deeper. Returns the new layer's
    /// identifier; nothing is added, and nothing returned, where no layer
    /// can be added below `parent`.
    pub fn add_layer(&mut self, parent: LayerId, start: usize, end: usize, tree: SyntaxTree) -> (r:
        Option<LayerId>)
        requires
            old(self).wf(),
            tree.wf(),
        ensures
            final(self).wf(),
            final(self).forest().root == old(self).forest().root,
            r is Some <==> old(self).can_add_layer(parent),
            r matches Some(id) ==> {
                &&& !old(self).forest().layers.contains_key(id)
                &&& final(self).forest().layers == old(self).forest().layers.insert(
                    id,
                    Layer {
                        depth: (old(self).forest().layers[parent].depth + 1) as u32,
                        parent: Some(parent),
                        start,
                        end,
                        tree,
                    },
                )
            },
            r is Some ==> final(self).forest().order.len() == old(self).forest().order.len() + 1,
            r is None ==> final(self).forest() == old(self).forest(),
    {
        let depth = match store_get(&self.layers, parent) {
            Some(l) => l.depth,
            None => {
                return None;
            },
        };
        if depth == u32::MAX || store_len(&self.layers) >= 0xffff_fffe {
            return None;
        }
        let ghost before = self.forest();
        let layer = Layer { depth: depth + 1, parent: Some(parent), start, end, tree };
        let id = store_insert(&mut self.layers, layer);
        proof {
            let f = self.forest();
            assert(f.layers.contains_key(f.root));
            assert forall|k: LayerId| f.layers.contains_key(k) implies #[trigger] f.layer_ok(
                k,
            ) by {
                if k != id {
                    assert(before.layer_ok(k));
                }
            }
            assert forall|i: int| 0 <= i < f.order.len() implies f.layers.contains_key(
                #[trigger] f.order[i],
            ) by {
                assert(f.order.contains(f.order[i]));
            }
        }
        Some(id)
    }

    /// Whether no node of any layer ends after `limit`.
    pub fn fits(&self, limit: usize) -> (ok: bool)
        requires
            self.wf(),
        ensures
            ok == self.forest().within(limit as int),
    {
        let listed = store_iter(&self.layers);
        let ghost forest = self.forest();
        let mut i: usize = 0;
        while i < listed.len()
            invariant
                i <= listed@.len(),
                forest == self.forest(),
                forest.wf(),
                lists_all(listed@, forest.layers),
                forall|k: int|
                    0 <= k < i ==> forest.layers[(#[trigger] listed@[k]).0].tree@[0].end <= limit,
            decreases listed@.len() - i,
        {
            let layer = listed[i].1;
            proof {
                assert(forest.layer_ok(listed@[i as int].0));
            }
            if layer.tree.end_byte(0) > limit {
                return false;
            }
            i = i + 1;
        }
        true
    }

    /// Whether every layer but the root layer lies where its parent has
    /// text: its tree within the region that the layer covers, and that
    /// region within the tree of the enclosing layer.
    pub fn is_nested(&self) -> (ok: bool)
        requires
            self.wf(),
        ensures
            ok == self.forest().nested(),
    {
        let listed = store_iter(&self.layers);
        let ghost forest = self.forest();
        let mut i: usize = 0;
        while i < listed.len()
            invariant
                i <= listed@.len(),
                forest == self.forest(),
                forest.wf(),
                lists_all(listed@, forest.layers),
                forall|k: int|
                    0 <= k < i && (#[trigger] listed@[k]).0 != forest.root ==> forest.layer_nested(
                        listed@[k].0,
                    ),
            decreases listed@.len() - i,
        {
            let id = listed[i].0;
            let layer = listed[i].1;
            proof {
                assert(forest.layer_ok(id));
            }
            if !same_layer(id, self.root) {
                if !layer.contains_byte_range(layer.tree.start_byte(0), layer.tree.end_byte(0)) {
                    proof {
                        assert(!forest.layer_nested(id));
                    }
                    return false;
                }
                let up = layer.parent.unwrap();
                proof {
                    assert(forest.layer_ok(up));
                }
                let above = &store_get(&self.layers, up).unwrap().tree;
                if !(above.start_byte(0) <= layer.start && layer.end <= above.end_byte(0)) {
                    proof {
                        assert(!forest.layer_nested(id));
                    }
                    return false;
                }
            }
            i = i + 1;
        }
        true
    }

    /// Whether the layers are laid out as the layers of a document are:
    /// every layer but the root layer lies one level below its parent, is
    /// parsed from the span of a node of its parent's tree, lies within that
    /// tree and is filled by its own; and layers of one level share no byte.
    pub fn is_laid_out(&self) -> (ok: bool)
        requires
            self.wf(),
        ensures
            ok == self.forest().laid_out(),
    {
        if !self.is_nested() {
            return false;
        }
        let listed = store_iter(&self.layers);
        let ghost forest = self.forest();
        let mut i: usize = 0;
        while i < listed.len()
            invariant
                i <= listed@.len(),
                forest == self.forest(),
                forest.wf(),
                lists_all(listed@, forest.layers),
                forall|k: int| 0 <= k < i ==> forest.layer_level((#[trigger] listed@[k]).0),
                forall|k: int|
                    0 <= k < i && (#[trigger] listed@[k]).0 != forest.root ==> forest.layer_filled(
                        listed@[k].0,
                    ) && forest.layer_hosted(listed@[k].0),
            decreases listed@.len() - i,
        {
            let id = listed[i].0;
            let layer = listed[i].1;
            proof {
                assert(forest.layer_ok(id));
            }
            if same_layer(id, self.root) {
                if layer.depth != 0 {
                    proof {
                        assert(!forest.layer_level(id));
                    }
                    return false;
                }
            } else {
                let up = layer.parent.unwrap();
                proof {
                    assert(forest.layer_ok(up));
                }
                let above = store_get(&self.layers, up).unwrap();
                if layer.depth == 0 || layer.depth - 1 != above.depth {
                    proof {
                        assert(!forest.layer_level(id));
                    }
                    return false;
                }
                if !(layer.tree.start_byte(0) <= layer.start && layer.end <= layer.tree.end_byte(
                    0,
                )) {
                    proof {
                        assert(!forest.layer_filled(id));
                    }
                    return false;
                }
                if above.tree.node_with_span(layer.start, layer.end).is_none() {
                    proof {
                        assert(!forest.layer_hosted(id));
                    }
                    return false;
                }
            }
            i = i + 1;
        }
        let mut a: usize = 0;
        while a < listed.len()
            invariant
                a <= listed@.len(),
                forest == self.forest(),
                lists_all(listed@, forest.layers),
                forall|p: int, q: int|
                    0 <= p < a && p < q < listed@.len() ==> forest.layers_apart(
                        (#[trigger] listed@[p]).0,
                        (#[trigger] listed@[q]).0,
                    ),
            decreases listed@.len() - a,
        {
            let one = listed[a].1;
            let mut b: usize = a + 1;
            while b < listed.len()
                invariant
                    a < b <= listed@.len(),
                    forest == self.forest(),
                    lists_all(listed@, forest.layers),
                    *one == forest.layers[listed@[a as int].0],
                    forall|q: int|
                        a < q < b ==> forest.layers_apart(
                            listed@[a as int].0,
                            (#[trigger] listed@[q]).0,
                        ),
                decreases listed@.len() - b,
            {
                let other = listed[b].1;
                if one.depth == other.depth && !(one.end <= other.start || other.end
                    <= one.start) {
                    proof {
                        assert(!forest.layers_apart(listed@[a as int].0, listed@[b as int].0));
                    }
                    return false;
                }
                b = b + 1;
            }
            a = a + 1;
        }
        proof {
            assert forall|x: LayerId, y: LayerId|
                forest.layers.contains_key(x) && forest.layers.contains_key(y) && x
                    != y implies #[trigger] forest.layers_apart(x, y) by {
                let p = choose|p: int| 0 <= p < listed@.len() && (#[trigger] listed@[p]).0 == x;
                let q = choose|q: int| 0 <= q < listed@.len() && (#[trigger] listed@[q]).0 == y;
                if p < q {
                    assert(forest.layers_apart(listed@[p].0, listed@[q].0));
                } else {
                    assert(forest.layers_apart(listed@[q].0, listed@[p].0));
                }
            }
        }
        true
    }

    /// A cursor over the document's trees, at the root of the root layer.
    pub fn walk(&self) -> (cursor: TreeCursor<'_>)
        requires
            self.wf(),
        ensures
            cursor.wf(),
            cursor.forest() == self.forest(),
            cursor.pos() == (Position { layer: self.forest().root, node: 0 }),
    {
        TreeCursor::new(&self.layers, self.root, self.injections())
    }
}

} // verus!
