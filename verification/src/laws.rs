//! What holds of the navigation and of the selection operations, whatever
//! the forest, the text and the selection.

use crate::layer::{injected_at, Forest, LayerId, Position};
use crate::object::{byte_span, expanded_range, moved_range, node_range, Motion};
use crate::selection::{Direction, Range};
use crate::text::{
    byte_len, byte_offset, char_offset, lemma_byte_offset_monotonic, lemma_char_offset_floor,
    lemma_char_offset_monotonic,
};
use crate::tree::{
    descend, is_ancestor, lemma_ancestor_spans, lemma_descend, lemma_descend_smallest,
    lemma_root_is_ancestor, lemma_within_root, node_ok, spans, SyntaxNode,
};
use vstd::prelude::*;

verus! {

impl Forest {
    /// The layer under `id` lies where its parent has text: its tree stays
    /// within the region that the layer covers, and the root of the
    /// enclosing layer's tree spans that region.
    pub open spec fn layer_nested(self, id: LayerId) -> bool {
        let l = self.layers[id];
        &&& l.covers(l.tree@[0].start as int, l.tree@[0].end as int)
        &&& (l.parent matches Some(p) ==> spans(
            self.layers[p].tree@[0],
            l.start as int,
            l.end as int,
        ))
    }

    /// Every layer but the root layer lies where its parent has text.
    pub open spec fn nested(self) -> bool {
        forall|id: LayerId|
            self.layers.contains_key(id) && id != self.root ==> #[trigger] self.layer_nested(id)
    }

    /// The tree of the layer under `id` fills the region that the layer
    /// covers: its root spans the region.
    pub open spec fn layer_filled(self, id: LayerId) -> bool {
        let l = self.layers[id];
        spans(l.tree@[0], l.start as int, l.end as int)
    }

    /// The tree of every layer but the root layer fills the layer's region.
    pub open spec fn filled(self) -> bool {
        forall|id: LayerId|
            self.layers.contains_key(id) && id != self.root ==> #[trigger] self.layer_filled(id)
    }

    /// The span of the node at `pos`, as a pair.
    pub open spec fn span(self, pos: Position) -> (int, int) {
        (self.node(pos).start as int, self.node(pos).end as int)
    }

    /// Resetting a cursor to a range twice leaves it where resetting it once
    /// does.
    pub proof fn lemma_reset_twice(self, pos: Position, start: int, end: int)
        ensures
            self.after_reset(self.after_reset(pos, start, end), start, end) == self.after_reset(
                pos,
                start,
                end,
            ),
    {
    }

    /// The position above a node spans whatever the node spans, across
    /// layers too.
    pub proof fn lemma_parent_spans(self, pos: Position, start: int, end: int)
        requires
            self.wf(),
            self.nested(),
            self.has(pos),
            spans(self.node(pos), start, end),
        ensures
            self.parent_of(pos) matches Some(up) ==> self.has(up) && self.above(up, pos) && spans(
                self.node(up),
                start,
                end,
            ),
    {
        self.lemma_parent_above(pos);
        assert(self.layer_ok(pos.layer));
        assert(node_ok(self.layers[pos.layer].tree@, pos.node));
        if self.node(pos).parent is None && pos.layer != self.root {
            let l = self.layers[pos.layer];
            let up = l.parent.unwrap();
            assert(self.layer_nested(pos.layer));
            assert(self.layer_ok(up));
            lemma_descend(self.layers[up].tree@, 0, l.start as int, l.end as int);
        }
    }

    /// A climb ends at a node of the forest that spans whatever the node it
    /// began at spans. It ends at a node with a span other than the one it
    /// climbs past, or at a node with no position above.
    pub proof fn lemma_climb(self, pos: Position, past: (int, int), start: int, end: int)
        requires
            self.wf(),
            self.nested(),
            self.has(pos),
            spans(self.node(pos), start, end),
        ensures
            self.has(self.climb(pos, past.0, past.1)),
            spans(self.node(self.climb(pos, past.0, past.1)), start, end),
            self.span(self.climb(pos, past.0, past.1)) == past ==> self.parent_of(
                self.climb(pos, past.0, past.1),
            ) is None,
        decreases self.layers[pos.layer].depth, pos.node,
    {
        self.lemma_parent_spans(pos, start, end);
        let n = self.node(pos);
        if n.start == past.0 && n.end == past.1 {
            if let Some(up) = self.parent_of(pos) {
                self.lemma_climb(up, past, start, end);
            }
        }
    }

    /// A climb past a span that begins below a node with that span, in the
    /// same tree, goes through that node.
    pub proof fn lemma_climb_through(self, layer: LayerId, c: int, m: int)
        requires
            self.wf(),
            self.layers.contains_key(layer),
            0 <= m < self.layers[layer].tree@.len(),
            is_ancestor(self.layers[layer].tree@, c, m),
            self.layers[layer].tree@[c].start == self.layers[layer].tree@[m].start,
            self.layers[layer].tree@[c].end == self.layers[layer].tree@[m].end,
        ensures
            self.climb(
                Position { layer, node: m },
                self.layers[layer].tree@[c].start as int,
                self.layers[layer].tree@[c].end as int,
            ) == self.climb(
                Position { layer, node: c },
                self.layers[layer].tree@[c].start as int,
                self.layers[layer].tree@[c].end as int,
            ),
        decreases m,
    {
        let nodes = self.layers[layer].tree@;
        assert(self.layer_ok(layer));
        if m != c {
            assert(node_ok(nodes, m));
            let p = nodes[m].parent.unwrap() as int;
            lemma_ancestor_spans(nodes, c, p);
            self.lemma_parent_above(Position { layer, node: m });
            self.lemma_climb_through(layer, c, p);
        }
    }

    /// Growing a byte range never loses a byte of it: where the node that
    /// the range resets to spans the range, so does the node that it grows
    /// to. The grown node has the span of the range itself only where no
    /// position is left above it.
    pub proof fn lemma_expand_spans(self, start: int, end: int)
        requires
            self.wf(),
            self.nested(),
            spans(self.node(self.entry(start, end)), start, end),
        ensures
            self.has(self.expanded(start, end)),
            spans(self.node(self.expanded(start, end)), start, end),
            self.span(self.expanded(start, end)) == (start, end) ==> self.parent_of(
                self.expanded(start, end),
            ) is None,
    {
        self.lemma_entry_has(start, end);
        self.lemma_climb(self.entry(start, end), (start, end), start, end);
    }

    /// A range that lies within the root of the tree of the layer it resets
    /// into resets to a node that spans it.
    pub proof fn lemma_entry_spans(self, start: int, end: int)
        requires
            self.wf(),
            spans(self.layers[self.innermost(start, end)].tree@[0], start, end),
        ensures
            self.has(self.entry(start, end)),
            spans(self.node(self.entry(start, end)), start, end),
    {
        self.lemma_entry_has(start, end);
        let id = self.innermost(start, end);
        assert(self.layer_ok(id));
        lemma_descend(self.layers[id].tree@, 0, start, end);
    }

    /// Where the trees fill their layers, a range within the root of the
    /// root layer's tree resets to a node that spans it.
    pub proof fn lemma_reset_spans(self, start: int, end: int)
        requires
            self.wf(),
            self.filled(),
            spans(self.layers[self.root].tree@[0], start, end),
        ensures
            self.has(self.entry(start, end)),
            spans(self.node(self.entry(start, end)), start, end),
    {
        self.lemma_innermost_is_deepest(start, end);
        let id = self.innermost(start, end);
        if id != self.root {
            assert(self.layer_filled(id));
        }
        self.lemma_entry_spans(start, end);
    }

    /// A climb does not lead into a deeper layer.
    pub proof fn lemma_climb_depth(self, pos: Position, past: (int, int))
        requires
            self.wf(),
            self.has(pos),
        ensures
            self.has(self.climb(pos, past.0, past.1)),
            self.layers[self.climb(pos, past.0, past.1).layer].depth
                <= self.layers[pos.layer].depth,
        decreases self.layers[pos.layer].depth, pos.node,
    {
        self.lemma_parent_above(pos);
        let n = self.node(pos);
        if n.start == past.0 && n.end == past.1 {
            if let Some(up) = self.parent_of(pos) {
                self.lemma_climb_depth(up, past);
                assert(self.layer_ok(pos.layer));
                assert(node_ok(self.layers[pos.layer].tree@, pos.node));
            }
        }
    }

    /// A climb past a span that is not the span of the tree's root stays in
    /// the tree: it ends at a node of the same layer with another span.
    pub proof fn lemma_climb_in_tree(self, layer: LayerId, m: int, past: (int, int))
        requires
            self.wf(),
            self.layers.contains_key(layer),
            0 <= m < self.layers[layer].tree@.len(),
            spans(self.layers[layer].tree@[m], past.0, past.1),
            self.span(Position { layer, node: 0 }) != past,
        ensures
            self.climb(Position { layer, node: m }, past.0, past.1).layer == layer,
            self.has(self.climb(Position { layer, node: m }, past.0, past.1)),
            spans(
                self.node(self.climb(Position { layer, node: m }, past.0, past.1)),
                past.0,
                past.1,
            ),
            self.span(self.climb(Position { layer, node: m }, past.0, past.1)) != past,
        decreases m,
    {
        let nodes = self.layers[layer].tree@;
        let pos = Position { layer, node: m };
        assert(self.layer_ok(layer));
        assert(node_ok(nodes, m));
        if nodes[m].start == past.0 && nodes[m].end == past.1 {
            let p = nodes[m].parent.unwrap() as int;
            self.lemma_parent_above(pos);
            self.lemma_climb_in_tree(layer, p, past);
        }
    }

    /// Where a climb within a tree ends, described by the way it took: the
    /// node it ends at stands above the node it began at or is that node,
    /// and the child through which it came, if it moved, has the span that
    /// it climbed past. The child is returned.
    pub proof fn lemma_climb_line(self, layer: LayerId, m: int, past: (int, int)) -> (c: int)
        requires
            self.wf(),
            self.layers.contains_key(layer),
            0 <= m < self.layers[layer].tree@.len(),
            spans(self.layers[layer].tree@[m], past.0, past.1),
            self.span(Position { layer, node: 0 }) != past,
        ensures
            self.climb(Position { layer, node: m }, past.0, past.1).layer == layer,
            is_ancestor(
                self.layers[layer].tree@,
                self.climb(Position { layer, node: m }, past.0, past.1).node,
                m,
            ),
            self.climb(Position { layer, node: m }, past.0, past.1).node != m ==> {
                &&& 0 <= c < self.layers[layer].tree@.len()
                &&& self.layers[layer].tree@[c].parent == Some(
                    self.climb(Position { layer, node: m }, past.0, past.1).node as usize,
                )
                &&& is_ancestor(self.layers[layer].tree@, c, m)
                &&& self.span(Position { layer, node: c }) == past
            },
        decreases m,
    {
        let nodes = self.layers[layer].tree@;
        let pos = Position { layer, node: m };
        assert(self.layer_ok(layer));
        assert(node_ok(nodes, m));
        self.lemma_climb_in_tree(layer, m, past);
        if nodes[m].start == past.0 && nodes[m].end == past.1 {
            let p = nodes[m].parent.unwrap() as int;
            self.lemma_parent_above(pos);
            self.lemma_climb_in_tree(layer, p, past);
            assert(is_ancestor(nodes, m, m));
            assert(is_ancestor(nodes, p, p));
            if nodes[p].start == past.0 && nodes[p].end == past.1 {
                let c = self.lemma_climb_line(layer, p, past);
                let r = self.climb(Position { layer, node: p }, past.0, past.1).node;
                crate::tree::lemma_ancestor_trans(nodes, r, p, m);
                crate::tree::lemma_ancestor_trans(nodes, c, p, m);
                c
            } else {
                m
            }
        } else {
            assert(is_ancestor(nodes, m, m));
            m
        }
    }

    /// The node that a range grows to has no node with its own span below
    /// it, where the range is not empty, lies within the tree of the layer
    /// that it resets into and is not the span of the tree's root.
    pub proof fn lemma_expanded_alone(self, start: int, end: int)
        requires
            self.wf(),
            start < end,
            spans(self.layers[self.innermost(start, end)].tree@[0], start, end),
            self.span(Position { layer: self.innermost(start, end), node: 0 }) != (start, end),
        ensures
            alone(self, self.expanded(start, end)),
    {
        let layer = self.innermost(start, end);
        let nodes = self.layers[layer].tree@;
        self.lemma_entry_spans(start, end);
        self.lemma_innermost_is_deepest(start, end);
        assert(self.layer_ok(layer));
        let m = descend(nodes, 0, start, end);
        lemma_descend(nodes, 0, start, end);
        let c = self.lemma_climb_line(layer, m, (start, end));
        self.lemma_climb_in_tree(layer, m, (start, end));
        let r = self.expanded(start, end);
        assert forall|d: int|
            0 <= d < nodes.len() && d != r.node && is_ancestor(
                nodes,
                r.node,
                d,
            ) implies self.span(Position { layer: r.layer, node: d }) != self.span(r) by {
            if self.span(Position { layer, node: d }) == self.span(r) {
                let below = crate::tree::lemma_child_above(nodes, r.node, d);
                lemma_ancestor_spans(nodes, below, d);
                assert(node_ok(nodes, below));
                if r.node == m {
                    crate::tree::lemma_child_toward_spanning(nodes, m, below, start, end);
                } else {
                    crate::tree::lemma_one_child_spans(nodes, r.node, below, c, start, end);
                }
            }
        }
    }

    /// In a forest that is laid out, a range that holds a range which is
    /// not empty, and lies within the tree of the layer that the smaller
    /// range resets into, resets into that layer too.
    pub proof fn lemma_innermost_grows(self, start: int, end: int, wider: (int, int))
        requires
            self.wf(),
            self.laid_out(),
            start < end,
            wider.0 <= start,
            end <= wider.1,
            spans(self.layers[self.innermost(start, end)].tree@[0], wider.0, wider.1),
        ensures
            self.innermost(wider.0, wider.1) == self.innermost(start, end),
    {
        let home = self.innermost(start, end);
        let x = self.innermost(wider.0, wider.1);
        self.lemma_innermost_is_deepest(start, end);
        self.lemma_innermost_is_deepest(wider.0, wider.1);
        assert(self.layer_level(home));
        assert(self.layer_level(x));
        if home != self.root {
            assert(self.layer_nested(home));
            assert(self.layers[home].covers(wider.0, wider.1));
        }
        if x != self.root {
            assert(self.layers[x].covers(start, end));
        }
        if x != home {
            assert(self.layers_apart(x, home));
        }
    }

    /// Whether growing the range `at` again and again leads in `n` steps to
    /// the span of the root of the tree of `layer`, every step to a node of
    /// that tree with a span that holds more than the one before.
    pub open spec fn grows_to_root(self, layer: LayerId, at: (int, int), n: nat) -> bool
        decreases n,
    {
        if n == 0 {
            at == self.span(Position { layer, node: 0 })
        } else {
            let r = self.expanded(at.0, at.1);
            &&& r.layer == layer
            &&& self.has(r)
            &&& spans(self.node(r), at.0, at.1)
            &&& self.span(r) != at
            &&& self.grows_to_root(layer, self.span(r), (n - 1) as nat)
        }
    }

    /// From the span of a node that has no node with its span below it,
    /// growing leads to the span of the root of the node's tree in no more
    /// steps than there are nodes above it, in a forest that is laid out
    /// and where the span resets into the node's layer. The number of steps
    /// is returned.
    pub proof fn lemma_grows_from_node(self, r: Position) -> (n: nat)
        requires
            self.wf(),
            self.laid_out(),
            self.has(r),
            self.node(r).start < self.node(r).end,
            self.innermost(self.span(r).0, self.span(r).1) == r.layer,
            alone(self, r),
        ensures
            n <= crate::tree::node_depth(self.layers[r.layer].tree@, r.node),
            self.grows_to_root(r.layer, self.span(r), n),
        decreases r.node,
    {
        let layer = r.layer;
        let nodes = self.layers[layer].tree@;
        let at = self.span(r);
        assert(self.layer_ok(layer));
        lemma_within_root(nodes, r.node);
        if at == self.span(Position { layer, node: 0 }) {
            0
        } else {
            self.lemma_reset_to_node(r);
            self.lemma_climb_in_tree(layer, r.node, at);
            let c = self.lemma_climb_line(layer, r.node, at);
            self.lemma_expanded_alone(at.0, at.1);
            let up = self.expanded(at.0, at.1);
            lemma_within_root(nodes, up.node);
            self.lemma_innermost_grows(at.0, at.1, self.span(up));
            lemma_ancestor_spans(nodes, up.node, r.node);
            crate::tree::lemma_ancestor_depth(nodes, up.node, r.node);
            let k = self.lemma_grows_from_node(up);
            (k + 1) as nat
        }
    }

    /// Growing a range again and again inside the layer that it resets into
    /// leads to the span of the root of that layer's tree, every step to a
    /// node of that tree with a span that holds more than the one before,
    /// in no more steps than one more than there are nodes above the node
    /// that the range resets to. So it is in a forest that is laid out, for
    /// a range that is not empty and lies within the layer's tree. The
    /// number of steps is returned.
    pub proof fn lemma_grows_in_layer(self, start: int, end: int) -> (n: nat)
        requires
            self.wf(),
            self.laid_out(),
            start < end,
            spans(self.layers[self.innermost(start, end)].tree@[0], start, end),
        ensures
            n <= crate::tree::node_depth(
                self.layers[self.innermost(start, end)].tree@,
                self.entry(start, end).node,
            ) + 1,
            self.grows_to_root(self.innermost(start, end), (start, end), n),
    {
        let layer = self.innermost(start, end);
        let nodes = self.layers[layer].tree@;
        self.lemma_innermost_is_deepest(start, end);
        assert(self.layer_ok(layer));
        if (start, end) == self.span(Position { layer, node: 0 }) {
            0
        } else {
            self.lemma_expand_in_layer(start, end);
            self.lemma_expanded_alone(start, end);
            let up = self.expanded(start, end);
            lemma_within_root(nodes, up.node);
            self.lemma_innermost_grows(start, end, self.span(up));
            let m = descend(nodes, 0, start, end);
            lemma_descend(nodes, 0, start, end);
            let c = self.lemma_climb_line(layer, m, (start, end));
            crate::tree::lemma_ancestor_depth(nodes, up.node, m);
            let k = self.lemma_grows_from_node(up);
            (k + 1) as nat
        }
    }

    /// Growing a range that lies within a layer's tree, and is not the span
    /// of its root, stays in that layer: the result is a node of the layer
    /// that the range resets into, spans the range and has another span.
    pub proof fn lemma_expand_in_layer(self, start: int, end: int)
        requires
            self.wf(),
            spans(self.layers[self.innermost(start, end)].tree@[0], start, end),
            self.span(Position { layer: self.innermost(start, end), node: 0 }) != (start, end),
        ensures
            self.has(self.expanded(start, end)),
            self.expanded(start, end).layer == self.innermost(start, end),
            spans(self.node(self.expanded(start, end)), start, end),
            self.span(self.expanded(start, end)) != (start, end),
    {
        self.lemma_entry_spans(start, end);
        let from = self.entry(start, end);
        self.lemma_climb_in_tree(from.layer, from.node, (start, end));
    }

    /// Growing the span of the root of a layer other than the root layer
    /// leaves the layer: where that span resets into the layer, the result
    /// is where the climb from the position above the layer's root ends. It
    /// spans the layer's root and lies in a layer of lesser depth.
    pub proof fn lemma_expand_leaves_layer(self, layer: LayerId)
        requires
            self.wf(),
            self.nested(),
            self.layers.contains_key(layer),
            layer != self.root,
            ({
                let (s, e) = self.span(Position { layer, node: 0 });
                self.innermost(s, e) == layer
            }),
        ensures
            ({
                let (s, e) = self.span(Position { layer, node: 0 });
                &&& self.parent_of(Position { layer, node: 0 }) matches Some(host)
                &&& host.layer == self.layers[layer].parent.unwrap()
                &&& self.expanded(s, e) == self.climb(host, s, e)
                &&& self.has(self.expanded(s, e))
                &&& spans(self.node(self.expanded(s, e)), s, e)
                &&& self.layers[self.expanded(s, e).layer].depth < self.layers[layer].depth
            }),
    {
        let top = Position { layer, node: 0 };
        let (s, e) = self.span(top);
        let nodes = self.layers[layer].tree@;
        assert(self.layer_ok(layer));
        assert(node_ok(nodes, 0));
        lemma_descend(nodes, 0, s, e);
        crate::tree::lemma_descend_below(nodes, 0, s, e);
        let m = descend(nodes, 0, s, e);
        lemma_within_root(nodes, m);
        self.lemma_climb_through(layer, 0, m);
        self.lemma_parent_spans(top, s, e);
        let host = self.parent_of(top).unwrap();
        self.lemma_climb(host, (s, e), s, e);
        self.lemma_climb_depth(host, (s, e));
        assert(self.layer_ok(host.layer));
    }

    /// A node that is not empty and has no node with its span below it is
    /// the node that its span resets to, where the span resets into the
    /// node's layer.
    pub proof fn lemma_reset_to_node(self, pos: Position)
        requires
            self.wf(),
            self.has(pos),
            self.node(pos).start < self.node(pos).end,
            self.innermost(self.span(pos).0, self.span(pos).1) == pos.layer,
            forall|d: int|
                0 <= d < self.layers[pos.layer].tree@.len() && d != pos.node && is_ancestor(
                    self.layers[pos.layer].tree@,
                    pos.node,
                    d,
                ) ==> self.span(Position { layer: pos.layer, node: d }) != self.span(pos),
        ensures
            self.entry(self.span(pos).0, self.span(pos).1) == pos,
    {
        let nodes = self.layers[pos.layer].tree@;
        let (s, e) = self.span(pos);
        assert(self.layer_ok(pos.layer));
        lemma_root_is_ancestor(nodes, pos.node);
        lemma_within_root(nodes, pos.node);
        lemma_descend(nodes, 0, s, e);
        lemma_descend_smallest(nodes, 0, pos.node, s, e);
        let m = descend(nodes, 0, s, e);
        lemma_ancestor_spans(nodes, pos.node, m);
        if m != pos.node {
            assert(self.span(Position { layer: pos.layer, node: m }) != self.span(pos));
        }
    }

    /// Whether the layer `inner` is the layer `outer` or is hosted in it at
    /// the span `at`: it covers exactly that span, the root of its tree has
    /// that span, and the layer that encloses it is `outer` or is hosted in
    /// `outer` in the same way.
    pub open spec fn hosted_in(self, inner: LayerId, outer: LayerId, at: (int, int)) -> bool
        decreases self.layers[inner].depth,
    {
        inner == outer || {
            &&& self.layers.contains_key(inner)
            &&& inner != self.root
            &&& (self.layers[inner].start as int, self.layers[inner].end as int) == at
            &&& self.span(Position { layer: inner, node: 0 }) == at
            &&& self.layers[inner].parent matches Some(up)
            &&& self.layers[up].depth < self.layers[inner].depth
            &&& self.hosted_in(up, outer, at)
        }
    }

    /// A climb past a span that begins where the span resets to in a layer
    /// hosted at that span goes through the place where the span resets to
    /// in the hosting layer.
    pub proof fn lemma_climb_out(self, inner: LayerId, outer: LayerId, at: (int, int))
        requires
            self.wf(),
            self.layers.contains_key(inner),
            self.hosted_in(inner, outer, at),
        ensures
            self.layers.contains_key(outer),
            self.climb(
                Position { layer: inner, node: descend(self.layers[inner].tree@, 0, at.0, at.1) },
                at.0,
                at.1,
            ) == self.climb(
                Position { layer: outer, node: descend(self.layers[outer].tree@, 0, at.0, at.1) },
                at.0,
                at.1,
            ),
        decreases self.layers[inner].depth,
    {
        if inner != outer {
            let nodes = self.layers[inner].tree@;
            let top = Position { layer: inner, node: 0 };
            assert(self.layer_ok(inner));
            assert(node_ok(nodes, 0));
            lemma_descend(nodes, 0, at.0, at.1);
            crate::tree::lemma_descend_below(nodes, 0, at.0, at.1);
            let m = descend(nodes, 0, at.0, at.1);
            lemma_within_root(nodes, m);
            self.lemma_climb_through(inner, 0, m);
            self.lemma_parent_above(top);
            let up = self.layers[inner].parent.unwrap();
            self.lemma_climb_out(up, outer, at);
        }
    }

    /// The layer under `id` lies one level below the layer that encloses
    /// it; the root layer lies at level 0.
    pub open spec fn layer_level(self, id: LayerId) -> bool {
        if id == self.root {
            self.layers[id].depth == 0
        } else {
            self.layers[id].parent matches Some(up) && self.layers[id].depth
                == self.layers[up].depth + 1
        }
    }

    /// The region of the layer under `id` is the span of a node of the tree
    /// of the layer that encloses it.
    pub open spec fn layer_hosted(self, id: LayerId) -> bool {
        let l = self.layers[id];
        l.parent matches Some(up) ==> exists|y: int|
            0 <= y < self.layers[up].tree@.len() && (#[trigger] self.layers[up].tree@[y]).start
                == l.start && self.layers[up].tree@[y].end == l.end
    }

    /// Two layers of the same depth share no byte.
    pub open spec fn layers_apart(self, a: LayerId, b: LayerId) -> bool {
        self.layers[a].depth == self.layers[b].depth ==> self.layers[a].end
            <= self.layers[b].start || self.layers[b].end <= self.layers[a].start
    }

    /// The forest is laid out as the layers of a document are: every layer
    /// but the root layer lies one level below its parent, is parsed from
    /// the span of a node of its parent's tree, and is filled by its own
    /// tree; and layers of one level share no byte.
    pub open spec fn laid_out(self) -> bool {
        &&& self.nested()
        &&& self.filled()
        &&& forall|id: LayerId| self.layers.contains_key(id) ==> #[trigger] self.layer_level(id)
        &&& forall|id: LayerId|
            self.layers.contains_key(id) && id != self.root ==> #[trigger] self.layer_hosted(id)
        &&& forall|a: LayerId, b: LayerId|
            self.layers.contains_key(a) && self.layers.contains_key(b) && a != b
                ==> #[trigger] self.layers_apart(a, b)
    }

    /// In a forest that is laid out, a layer that covers the span of a node
    /// from at least the depth of the node's layer is that layer or is
    /// hosted in it at the node's span, provided that the node is not empty
    /// and that no deeper layer covers the node above it.
    pub proof fn lemma_hosted_at(self, x: LayerId, c: Position)
        requires
            self.wf(),
            self.laid_out(),
            self.has(c),
            self.node(c).start < self.node(c).end,
            self.layers.contains_key(x),
            x == c.layer || self.layers[x].covers(self.span(c).0, self.span(c).1),
            self.layers[x].depth >= self.layers[c.layer].depth,
            forall|y: LayerId|
                self.layers.contains_key(y) && (#[trigger] self.layers[y]).depth
                    > self.layers[c.layer].depth ==> (self.node(c).parent matches Some(p)
                    ==> !self.layers[y].covers(
                    self.layers[c.layer].tree@[p as int].start as int,
                    self.layers[c.layer].tree@[p as int].end as int,
                )),
        ensures
            self.hosted_in(x, c.layer, self.span(c)),
        decreases self.layers[x].depth,
    {
        let home = c.layer;
        let at = self.span(c);
        let nodes = self.layers[home].tree@;
        assert(self.layer_ok(home));
        assert(self.layer_level(home));
        assert(self.layer_level(x));
        lemma_within_root(nodes, c.node);
        if x != home {
            if home != self.root {
                assert(self.layer_nested(home));
            }
            if self.layers[x].depth == self.layers[home].depth {
                assert(self.layers_apart(x, home));
                assert(false);
            }
            assert(self.layer_ok(x));
            assert(self.layer_nested(x));
            assert(self.layer_filled(x));
            assert(self.layer_hosted(x));
            let up = self.layers[x].parent.unwrap();
            assert(self.layer_ok(up));
            assert(self.layer_level(up));
            lemma_within_root(self.layers[x].tree@, 0);
            if up != self.root {
                assert(self.layer_nested(up));
            }
            self.lemma_hosted_at(up, c);
            let l = self.layers[x];
            let y = choose|y: int|
                0 <= y < self.layers[up].tree@.len() && (#[trigger] self.layers[up].tree@[y]).start
                    == l.start && self.layers[up].tree@[y].end == l.end;
            lemma_within_root(self.layers[up].tree@, y);
            if up == home {
                lemma_root_is_ancestor(nodes, y);
                lemma_root_is_ancestor(nodes, c.node);
                lemma_descend_smallest(nodes, 0, y, at.0, at.1);
                lemma_descend_smallest(nodes, 0, c.node, at.0, at.1);
                let m = descend(nodes, 0, at.0, at.1);
                lemma_descend(nodes, 0, at.0, at.1);
                if y <= c.node {
                    crate::tree::lemma_ancestors_in_line(nodes, y, c.node, m);
                    if y != c.node {
                        assert(node_ok(nodes, c.node));
                        let p = nodes[c.node].parent.unwrap() as int;
                        lemma_ancestor_spans(nodes, y, p);
                        assert(self.layers[x].covers(nodes[p].start as int, nodes[p].end as int));
                        assert(false);
                    }
                } else {
                    crate::tree::lemma_ancestors_in_line(nodes, c.node, y, m);
                    lemma_ancestor_spans(nodes, c.node, y);
                }
            }
            assert((l.start as int, l.end as int) == at);
        }
    }

    /// In a forest that is laid out, the span of a node that is not empty
    /// and that no layer is parsed from resets into the node's own layer,
    /// provided that no deeper layer covers the node above it.
    pub proof fn lemma_resets_home(self, c: Position)
        requires
            self.wf(),
            self.laid_out(),
            self.has(c),
            self.node(c).start < self.node(c).end,
            injected_at(self.injections(), self.span(c).0, self.span(c).1) is None,
            forall|y: LayerId|
                self.layers.contains_key(y) && (#[trigger] self.layers[y]).depth
                    > self.layers[c.layer].depth ==> (self.node(c).parent matches Some(p)
                    ==> !self.layers[y].covers(
                    self.layers[c.layer].tree@[p as int].start as int,
                    self.layers[c.layer].tree@[p as int].end as int,
                )),
        ensures
            self.innermost(self.span(c).0, self.span(c).1) == c.layer,
    {
        let (s, e) = self.span(c);
        let x = self.innermost(s, e);
        let home = c.layer;
        self.lemma_innermost_is_deepest(s, e);
        assert(self.layer_ok(home));
        assert(self.layer_level(home));
        assert(self.layer_level(x));
        lemma_within_root(self.layers[home].tree@, c.node);
        if home != self.root {
            assert(self.layer_nested(home));
            assert(self.layers[home].covers(s, e));
        }
        self.lemma_hosted_at(x, c);
        if x != home {
            self.lemma_injections_complete(x);
        }
    }

    /// What `lemma_shrink_then_expand` asks of the layers holds in a forest
    /// that is laid out: the span of the first child of the node that a
    /// range resets to resets into the child's layer or into a layer hosted
    /// in it at that span.
    pub proof fn lemma_child_hosted(self, start: int, end: int)
        requires
            self.wf(),
            self.laid_out(),
            spans(self.layers[self.root].tree@[0], start, end),
            ({
                let child = self.selected(start, end, Motion::FirstChild);
                self.node(child).start < self.node(child).end
            }),
        ensures
            ({
                let child = self.selected(start, end, Motion::FirstChild);
                let (s, e) = self.span(child);
                self.hosted_in(self.innermost(s, e), child.layer, (s, e))
            }),
    {
        let from = self.entry(start, end);
        self.lemma_reset_spans(start, end);
        self.lemma_first_child_has(from);
        self.lemma_innermost_is_deepest(start, end);
        let child = self.selected(start, end, Motion::FirstChild);
        let (s, e) = self.span(child);
        self.lemma_innermost_is_deepest(s, e);
        let x = self.innermost(s, e);
        let home = child.layer;
        let nodes = self.layers[home].tree@;
        assert(self.layer_ok(home));
        assert(self.layer_ok(from.layer));
        assert(self.layer_level(home));
        assert(self.layer_level(x));
        assert(node_ok(nodes, child.node));
        assert(node_ok(self.layers[from.layer].tree@, from.node));
        lemma_within_root(nodes, child.node);
        if home != self.root {
            assert(self.layer_nested(home));
            assert(self.layers[home].covers(s, e));
        }
        assert forall|y: LayerId|
            self.layers.contains_key(y) && (#[trigger] self.layers[y]).depth
                > self.layers[home].depth implies (self.node(child).parent matches Some(p)
            ==> !self.layers[y].covers(
            nodes[p as int].start as int,
            nodes[p as int].end as int,
        )) by {
            if let Some(p) = self.node(child).parent {
                // The child lies in the tree that the range reset into, at
                // or below the node it reset to, so that what lies above
                // the child spans the range.
                assert(home == from.layer);
                assert(node_ok(nodes, p as int));
                if self.layers[y].covers(nodes[p as int].start as int, nodes[p as int].end as int) {
                    assert(self.layers[y].covers(start, end));
                }
            }
        }
        self.lemma_hosted_at(x, child);
    }

    /// Shrinking and then growing does not lose the node that was shrunk, in
    /// a forest that is laid out: for a range within the root of the root
    /// layer's tree, the span of the first child of the node that the range
    /// resets to, if it is not empty, grows to a node that spans the node.
    pub proof fn lemma_shrink_then_expand_laid_out(self, start: int, end: int)
        requires
            self.wf(),
            self.laid_out(),
            spans(self.layers[self.root].tree@[0], start, end),
            ({
                let child = self.selected(start, end, Motion::FirstChild);
                self.node(child).start < self.node(child).end
            }),
        ensures
            ({
                let from = self.entry(start, end);
                let (s, e) = self.span(self.selected(start, end, Motion::FirstChild));
                spans(self.node(self.expanded(s, e)), self.span(from).0, self.span(from).1)
            }),
    {
        self.lemma_child_hosted(start, end);
        self.lemma_shrink_then_expand(start, end);
    }

    /// Shrinking and then growing does not lose the node that was shrunk:
    /// take the node `from` that a range resets to, step to its first
    /// child, and grow the child's span. Where that span is not empty and
    /// resets into the child's own layer, or into a layer that is hosted in
    /// it at that span, the result spans `from`.
    pub proof fn lemma_shrink_then_expand(self, start: int, end: int)
        requires
            self.wf(),
            self.nested(),
            ({
                let child = self.selected(start, end, Motion::FirstChild);
                let (s, e) = self.span(child);
                s < e && self.hosted_in(self.innermost(s, e), child.layer, (s, e))
            }),
        ensures
            ({
                let from = self.entry(start, end);
                let (s, e) = self.span(self.selected(start, end, Motion::FirstChild));
                spans(self.node(self.expanded(s, e)), self.span(from).0, self.span(from).1)
            }),
    {
        let from = self.entry(start, end);
        self.lemma_entry_has(start, end);
        self.lemma_first_child_has(from);
        let child = self.selected(start, end, Motion::FirstChild);
        let (s, e) = self.span(child);
        let layer = child.layer;
        let nodes = self.layers[layer].tree@;
        assert(self.layer_ok(layer));
        assert(self.layer_ok(from.layer));
        assert(node_ok(self.layers[from.layer].tree@, from.node));
        // The grown range resets to a node below the child that has the
        // child's span.
        let m = descend(nodes, 0, s, e);
        lemma_descend(nodes, 0, s, e);
        lemma_root_is_ancestor(nodes, child.node);
        lemma_within_root(nodes, child.node);
        lemma_descend_smallest(nodes, 0, child.node, s, e);
        lemma_ancestor_spans(nodes, child.node, m);
        self.lemma_climb_through(layer, child.node, m);
        self.lemma_innermost_is_deepest(s, e);
        self.lemma_climb_out(self.innermost(s, e), layer, (s, e));
        assert(self.expanded(s, e) == self.climb(child, s, e));
        let fs = self.span(from).0;
        let fe = self.span(from).1;
        if child == from {
            self.lemma_climb(child, (s, e), fs, fe);
        } else {
            // The climb leaves the child for the position above it, which
            // spans the node that was shrunk.
            self.lemma_parent_above(child);
            let n = self.node(from);
            match injected_at(self.injections(), n.start as int, n.end as int) {
                Some(id) => {
                    self.lemma_injected_layer(
                        self.order.len() as int,
                        n.start as int,
                        n.end as int,
                    );
                    assert(self.layer_nested(id));
                    let up = self.layers[id].parent.unwrap();
                    assert(self.layer_ok(up));
                    lemma_descend(self.layers[up].tree@, 0, fs, fe);
                },
                None => {
                    assert(self.parent_of(child) == Some(from));
                },
            }
            let above = self.parent_of(child).unwrap();
            assert(spans(self.node(above), fs, fe));
            self.lemma_climb(above, (s, e), fs, fe);
        }
    }

    /// A step to the sibling on one side and a step to the sibling on the
    /// other lead back.
    pub proof fn lemma_sibling_there_and_back(self, pos: Position, forward: bool)
        requires
            self.wf(),
            self.has(pos),
        ensures
            self.sibling_of(pos, forward) matches Some(s) ==> self.has(s) && self.sibling_of(
                s,
                !forward,
            ) == Some(pos),
    {
        assert(self.layer_ok(pos.layer));
        assert(node_ok(self.layers[pos.layer].tree@, pos.node));
    }

    /// Going up from the root of a layer other than the root layer leads
    /// into the enclosing layer, to a node that spans the region the layer
    /// covers, provided that the root of the enclosing layer's tree spans
    /// it.
    pub proof fn lemma_parent_crosses_layers(self, layer: LayerId)
        requires
            self.wf(),
            self.layers.contains_key(layer),
            layer != self.root,
            spans(
                self.layers[self.layers[layer].parent.unwrap()].tree@[0],
                self.layers[layer].start as int,
                self.layers[layer].end as int,
            ),
        ensures
            self.parent_of(Position { layer, node: 0 }) matches Some(up) && up.layer
                == self.layers[layer].parent.unwrap() && self.has(up) && spans(
                self.node(up),
                self.layers[layer].start as int,
                self.layers[layer].end as int,
            ),
    {
        assert(self.layer_ok(layer));
        assert(node_ok(self.layers[layer].tree@, 0));
        let l = self.layers[layer];
        let up = l.parent.unwrap();
        assert(self.layer_ok(up));
        lemma_descend(self.layers[up].tree@, 0, l.start as int, l.end as int);
    }
}

/// Whether a node begins and ends between two characters of the text.
pub open spec fn on_boundaries(chars: Seq<char>, n: SyntaxNode) -> bool {
    &&& byte_offset(chars, char_offset(chars, n.start as int)) == n.start
    &&& byte_offset(chars, char_offset(chars, n.end as int)) == n.end
}

/// The range made from a node's span covers the characters of the span and
/// faces as asked: with the head at the lower end where the direction is
/// backward, at the upper end where it is forward.
pub proof fn lemma_node_range(chars: Seq<char>, n: SyntaxNode, direction: Direction)
    requires
        chars.len() <= usize::MAX,
        n.start <= n.end <= byte_len(chars),
    ensures
        ({
            let r = node_range(chars, n, direction);
            &&& r.lower() == char_offset(chars, n.start as int)
            &&& r.upper() == char_offset(chars, n.end as int)
            &&& r.upper() <= chars.len()
            &&& direction == Direction::Backward ==> r.head == r.lower() && r.anchor == r.upper()
            &&& direction == Direction::Forward ==> r.anchor == r.lower() && r.head == r.upper()
            &&& r.lower() < r.upper() ==> r.facing() == direction
        }),
{
    lemma_char_offset_floor(chars, n.start as int);
    lemma_char_offset_floor(chars, n.end as int);
    lemma_char_offset_monotonic(chars, n.start as int, n.end as int);
}

/// The bytes of the range made from a node that begins and ends between
/// characters are the node's span.
pub proof fn lemma_node_range_bytes(chars: Seq<char>, n: SyntaxNode, direction: Direction)
    requires
        chars.len() <= usize::MAX,
        n.start <= n.end <= byte_len(chars),
        on_boundaries(chars, n),
    ensures
        byte_span(chars, node_range(chars, n, direction)) == (n.start as int, n.end as int),
{
    lemma_node_range(chars, n, direction);
}

/// Growing a selection never loses a byte of it: the bytes of a grown range
/// hold the bytes of the range, where the node that the range resets to
/// spans the range.
pub proof fn lemma_expand_monotonic(forest: Forest, chars: Seq<char>, range: Range)
    requires
        forest.wf(),
        forest.nested(),
        forest.within(byte_len(chars)),
        range.upper() <= chars.len() <= usize::MAX,
        ({
            let (start, end) = byte_span(chars, range);
            spans(forest.node(forest.entry(start, end)), start, end)
        }),
    ensures
        ({
            let (start, end) = byte_span(chars, range);
            let grown = byte_span(chars, expanded_range(forest, chars, range));
            grown.0 <= start && end <= grown.1
        }),
{
    let (start, end) = byte_span(chars, range);
    forest.lemma_expand_spans(start, end);
    let pos = forest.expanded(start, end);
    let n = forest.node(pos);
    assert(forest.layer_ok(pos.layer));
    lemma_within_root(forest.layers[pos.layer].tree@, pos.node);
    lemma_node_range(chars, n, range.facing());
    let r = expanded_range(forest, chars, range);
    lemma_char_offset_floor(chars, n.start as int);
    lemma_char_offset_floor(chars, n.end as int);
    lemma_byte_offset_monotonic(chars, range.lower() as int, range.upper() as int);
    assert(range.upper() as int <= char_offset(chars, n.end as int));
    lemma_byte_offset_monotonic(chars, range.upper() as int, r.upper() as int);
}

/// Growing a selection never loses a byte of it, where the forest is laid
/// out as a document's layers are: every layer but the root lies where its
/// parent has text and is filled by its tree. The bytes of a grown range
/// hold the bytes of the range, if these lie within the root of the root
/// layer's tree.
pub proof fn lemma_expand_contains(forest: Forest, chars: Seq<char>, range: Range)
    requires
        forest.wf(),
        forest.nested(),
        forest.filled(),
        forest.within(byte_len(chars)),
        range.upper() <= chars.len() <= usize::MAX,
        ({
            let (start, end) = byte_span(chars, range);
            spans(forest.layers[forest.root].tree@[0], start, end)
        }),
    ensures
        ({
            let (start, end) = byte_span(chars, range);
            let grown = byte_span(chars, expanded_range(forest, chars, range));
            grown.0 <= start && end <= grown.1
        }),
{
    let (start, end) = byte_span(chars, range);
    forest.lemma_reset_spans(start, end);
    lemma_expand_monotonic(forest, chars, range);
}

/// Whether every node of the forest begins and ends between two characters
/// of the text, as the nodes of trees that were parsed from the text do.
pub open spec fn aligned(forest: Forest, chars: Seq<char>) -> bool {
    forall|pos: Position| forest.has(pos) ==> on_boundaries(chars, #[trigger] forest.node(pos))
}

/// Shrinking a range and growing the result does not lose the node that was
/// shrunk. The node that the range resets to is `from`; shrinking selects
/// its first child. Where the child is not empty and resets into its own
/// layer, or into a layer that is hosted in it at the child's span, the
/// bytes of the range that comes out hold the span of `from`.
pub proof fn lemma_shrink_expand(forest: Forest, chars: Seq<char>, range: Range)
    requires
        forest.wf(),
        forest.nested(),
        forest.within(byte_len(chars)),
        aligned(forest, chars),
        range.upper() <= chars.len() <= usize::MAX,
        ({
            let (start, end) = byte_span(chars, range);
            let child = forest.selected(start, end, Motion::FirstChild);
            let (s, e) = forest.span(child);
            s < e && forest.hosted_in(forest.innermost(s, e), child.layer, (s, e))
        }),
    ensures
        ({
            let (start, end) = byte_span(chars, range);
            let from = forest.node(forest.entry(start, end));
            let shrunk = moved_range(forest, chars, range, Motion::FirstChild);
            let back = byte_span(chars, expanded_range(forest, chars, shrunk));
            back.0 <= from.start && from.end <= back.1
        }),
{
    let (start, end) = byte_span(chars, range);
    let from = forest.entry(start, end);
    forest.lemma_entry_has(start, end);
    forest.lemma_first_child_has(from);
    let child = forest.selected(start, end, Motion::FirstChild);
    let shrunk = moved_range(forest, chars, range, Motion::FirstChild);
    lemma_position_range_bytes(forest, chars, child, range.facing());
    forest.lemma_shrink_then_expand(start, end);
    let (s, e) = forest.span(child);
    forest.lemma_entry_has(s, e);
    let again = forest.entry(s, e);
    forest.lemma_climb(again, (s, e), forest.span(again).0, forest.span(again).1);
    lemma_position_range_bytes(forest, chars, forest.expanded(s, e), shrunk.facing());
}

/// Shrinking a range and growing the result does not lose the node that was
/// shrunk, in a forest that is laid out as the layers of a document are:
/// for a range within the root of the root layer's tree, whose node has a
/// first child that is not empty, the bytes of the range that comes out
/// hold the span of the node that the range reset to, and with it the bytes
/// of the range.
pub proof fn lemma_shrink_expand_laid_out(forest: Forest, chars: Seq<char>, range: Range)
    requires
        forest.wf(),
        forest.laid_out(),
        forest.within(byte_len(chars)),
        aligned(forest, chars),
        range.upper() <= chars.len() <= usize::MAX,
        ({
            let (start, end) = byte_span(chars, range);
            let child = forest.selected(start, end, Motion::FirstChild);
            &&& spans(forest.layers[forest.root].tree@[0], start, end)
            &&& forest.node(child).start < forest.node(child).end
        }),
    ensures
        ({
            let (start, end) = byte_span(chars, range);
            let from = forest.node(forest.entry(start, end));
            let shrunk = moved_range(forest, chars, range, Motion::FirstChild);
            let back = byte_span(chars, expanded_range(forest, chars, shrunk));
            &&& back.0 <= from.start && from.end <= back.1
            &&& back.0 <= start && end <= back.1
        }),
{
    let (start, end) = byte_span(chars, range);
    forest.lemma_child_hosted(start, end);
    forest.lemma_reset_spans(start, end);
    lemma_shrink_expand(forest, chars, range);
}

/// The bytes of the range made from a node of a forest whose nodes begin
/// and end between characters are the node's span.
pub proof fn lemma_position_range_bytes(
    forest: Forest,
    chars: Seq<char>,
    pos: Position,
    direction: Direction,
)
    requires
        forest.wf(),
        forest.within(byte_len(chars)),
        aligned(forest, chars),
        chars.len() <= usize::MAX,
        forest.has(pos),
    ensures
        byte_span(chars, node_range(chars, forest.node(pos), direction)) == forest.span(pos),
{
    assert(forest.layer_ok(pos.layer));
    lemma_within_root(forest.layers[pos.layer].tree@, pos.node);
    lemma_node_range_bytes(chars, forest.node(pos), direction);
}

/// Selecting the sibling on the right and then the sibling on the left
/// leads back: where the node that a range resets to has a sibling on the
/// right, and that sibling's span resets to the sibling itself or to a
/// first child of it, the range that comes out covers the node again.
pub proof fn lemma_sibling_round_trip(forest: Forest, chars: Seq<char>, range: Range)
    requires
        forest.wf(),
        forest.within(byte_len(chars)),
        aligned(forest, chars),
        range.upper() <= chars.len() <= usize::MAX,
        ({
            let (start, end) = byte_span(chars, range);
            let from = forest.entry(start, end);
            &&& forest.next_sibling_of(from) matches Some(next)
            &&& ({
                let back = forest.entry(forest.span(next).0, forest.span(next).1);
                ||| back == next
                ||| (forest.prev_sibling_of(back) is None && forest.parent_of(back) == Some(next))
            })
        }),
    ensures
        ({
            let (start, end) = byte_span(chars, range);
            let from = forest.node(forest.entry(start, end));
            let there = moved_range(forest, chars, range, Motion::NextSibling);
            let back = moved_range(forest, chars, there, Motion::PrevSibling);
            &&& byte_span(chars, back) == (from.start as int, from.end as int)
            &&& there.lower() < there.upper() ==> back == node_range(chars, from, range.facing())
            &&& there.lower() < there.upper() && back.lower() < back.upper() ==> back.facing()
                == range.facing()
        }),
{
    let (start, end) = byte_span(chars, range);
    let from = forest.entry(start, end);
    forest.lemma_entry_has(start, end);
    forest.lemma_sibling_there_and_back(from, true);
    let next = forest.next_sibling_of(from).unwrap();
    let there = moved_range(forest, chars, range, Motion::NextSibling);
    lemma_position_range_bytes(forest, chars, next, range.facing());
    lemma_position_range_bytes(forest, chars, from, there.facing());
    lemma_position_range(forest, chars, next, range.facing());
    lemma_position_range(forest, chars, from, range.facing());
}

/// The range made from a node of the forest covers the characters of the
/// node's span, and faces as asked unless it is empty.
pub proof fn lemma_position_range(
    forest: Forest,
    chars: Seq<char>,
    pos: Position,
    direction: Direction,
)
    requires
        forest.wf(),
        forest.within(byte_len(chars)),
        chars.len() <= usize::MAX,
        forest.has(pos),
    ensures
        ({
            let r = node_range(chars, forest.node(pos), direction);
            &&& r.lower() == char_offset(chars, forest.node(pos).start as int)
            &&& r.upper() == char_offset(chars, forest.node(pos).end as int)
            &&& r.upper() <= chars.len()
            &&& r.faces(direction)
            &&& r.lower() < r.upper() ==> r.facing() == direction
        }),
{
    assert(forest.layer_ok(pos.layer));
    lemma_within_root(forest.layers[pos.layer].tree@, pos.node);
    lemma_node_range(chars, forest.node(pos), direction);
}

/// Selecting the sibling on the right and then the sibling on the left
/// gives the range back, bytes and direction: for a range that covers a
/// node with a sibling on the right, where neither of the two nodes is
/// empty or has a node with its own span below it, and the spans of both
/// reset into their layer.
pub proof fn lemma_sibling_there_and_back_again(
    forest: Forest,
    chars: Seq<char>,
    range: Range,
    from: Position,
)
    requires
        forest.wf(),
        forest.within(byte_len(chars)),
        aligned(forest, chars),
        range.upper() <= chars.len() <= usize::MAX,
        forest.has(from),
        byte_span(chars, range) == forest.span(from),
        forest.next_sibling_of(from) is Some,
        plain(forest, from),
        plain(forest, forest.next_sibling_of(from).unwrap()),
    ensures
        ({
            let there = moved_range(forest, chars, range, Motion::NextSibling);
            let back = moved_range(forest, chars, there, Motion::PrevSibling);
            &&& there == node_range(
                chars,
                forest.node(forest.next_sibling_of(from).unwrap()),
                range.facing(),
            )
            &&& byte_span(chars, back) == byte_span(chars, range)
            &&& back.lower() == range.lower()
            &&& back.upper() == range.upper()
            &&& back.facing() == range.facing()
            &&& back == range
        }),
{
    let (start, end) = byte_span(chars, range);
    forest.lemma_reset_to_node(from);
    forest.lemma_sibling_there_and_back(from, true);
    let next = forest.next_sibling_of(from).unwrap();
    forest.lemma_reset_to_node(next);
    lemma_sibling_round_trip(forest, chars, range);
    lemma_position_range_bytes(forest, chars, next, range.facing());
    lemma_position_range(forest, chars, next, range.facing());
    lemma_position_range(forest, chars, from, range.facing());
    let there = moved_range(forest, chars, range, Motion::NextSibling);
    let back = moved_range(forest, chars, there, Motion::PrevSibling);
    // Both ranges cover the characters of a node that is not empty, so
    // neither is empty.
    lemma_byte_offset_monotonic(chars, there.lower() as int, there.upper() as int);
    lemma_byte_offset_monotonic(chars, range.lower() as int, range.upper() as int);
    lemma_byte_offset_monotonic(chars, back.lower() as int, back.upper() as int);
    crate::text::lemma_char_byte_round_trip(chars, range.lower() as int);
    crate::text::lemma_char_byte_round_trip(chars, range.upper() as int);
}

/// Selecting the sibling on the right and then the sibling on the left
/// gives the range back, bytes and direction, in a forest that is laid out:
/// for a range that is the span of the node it resets to, where that node
/// has a sibling on the right that no layer is parsed from, and neither of
/// the two nodes is empty or has a node with its own span below it.
pub proof fn lemma_sibling_round_trip_laid_out(forest: Forest, chars: Seq<char>, range: Range)
    requires
        forest.wf(),
        forest.laid_out(),
        forest.within(byte_len(chars)),
        aligned(forest, chars),
        range.upper() <= chars.len() <= usize::MAX,
        ({
            let (start, end) = byte_span(chars, range);
            let from = forest.entry(start, end);
            &&& forest.span(from) == (start, end)
            &&& start < end
            &&& alone(forest, from)
            &&& forest.next_sibling_of(from) matches Some(next)
            &&& forest.node(next).start < forest.node(next).end
            &&& alone(forest, next)
            &&& injected_at(forest.injections(), forest.span(next).0, forest.span(next).1) is None
        }),
    ensures
        ({
            let there = moved_range(forest, chars, range, Motion::NextSibling);
            let back = moved_range(forest, chars, there, Motion::PrevSibling);
            back == range
        }),
{
    let (start, end) = byte_span(chars, range);
    let from = forest.entry(start, end);
    forest.lemma_entry_has(start, end);
    forest.lemma_innermost_is_deepest(start, end);
    forest.lemma_sibling_there_and_back(from, true);
    let next = forest.next_sibling_of(from).unwrap();
    let nodes = forest.layers[from.layer].tree@;
    assert(forest.layer_ok(from.layer));
    assert(node_ok(nodes, from.node));
    assert(node_ok(nodes, next.node));
    assert forall|y: LayerId|
        forest.layers.contains_key(y) && (#[trigger] forest.layers[y]).depth
            > forest.layers[next.layer].depth implies (forest.node(next).parent matches Some(p)
        ==> !forest.layers[y].covers(nodes[p as int].start as int, nodes[p as int].end as int)) by {
        if let Some(p) = forest.node(next).parent {
            assert(node_ok(nodes, p as int));
            if forest.layers[y].covers(nodes[p as int].start as int, nodes[p as int].end as int) {
                assert(forest.layers[y].covers(start, end));
            }
        }
    }
    forest.lemma_resets_home(next);
    lemma_sibling_there_and_back_again(forest, chars, range, from);
}

/// Whether no node below the node at `pos` has the node's own span.
pub open spec fn alone(forest: Forest, pos: Position) -> bool {
    forall|d: int|
        0 <= d < forest.layers[pos.layer].tree@.len() && d != pos.node && is_ancestor(
            forest.layers[pos.layer].tree@,
            pos.node,
            d,
        ) ==> forest.span(Position { layer: pos.layer, node: d }) != forest.span(pos)
}

/// Whether the node at `pos` is not empty, has no node with its own span
/// below it, and has a span that resets into its layer.
pub open spec fn plain(forest: Forest, pos: Position) -> bool {
    &&& forest.node(pos).start < forest.node(pos).end
    &&& forest.innermost(forest.span(pos).0, forest.span(pos).1) == pos.layer
    &&& forall|d: int|
        0 <= d < forest.layers[pos.layer].tree@.len() && d != pos.node && is_ancestor(
            forest.layers[pos.layer].tree@,
            pos.node,
            d,
        ) ==> forest.span(Position { layer: pos.layer, node: d }) != forest.span(pos)
}

} // verus!
