//! A parse tree held as a table of nodes.
//!
//! Every node records its byte span and the positions of its parent, its
//! first child and its two neighbouring siblings. Positions are indices into
//! the table; the root is at position 0, a parent stands before its children
//! and a node before its later siblings.
//!
//! The search for the smallest node that spans a range works on the table
//! alone. It goes by the rule of the parser that the tables are read from,
//! so that a cursor comes to rest where that parser's own search would; the
//! agreement is tested on parsed texts and is no part of what is proved
//! here. What is proved is that the search finds the smallest node that
//! spans the range.

use vstd::prelude::*;

verus! {

/// One node of a parse tree.
#[derive(Clone, Copy, Debug, PartialEq, Eq)]
pub struct SyntaxNode {
    /// First byte of the node's text.
    pub start: usize,
    /// One past the last byte of the node's text.
    pub end: usize,
    /// Position of the enclosing node, absent for the root.
    pub parent: Option<usize>,
    /// Position of the leftmost child.
    pub first_child: Option<usize>,
    /// Position of the sibling to the right.
    pub next_sibling: Option<usize>,
    /// Position of the sibling to the left.
    pub prev_sibling: Option<usize>,
}

/// Whether the span of `n` holds the byte range `start..end`.
pub open spec fn spans(n: SyntaxNode, start: int, end: int) -> bool {
    n.start <= start && end <= n.end
}

/// Whether a search for `start..end` may stop its walk along a row of
/// siblings at `n`: the node reaches the end of the range and ends after its
/// start.
pub open spec fn admits(n: SyntaxNode, start: int, end: int) -> bool {
    n.end >= end && n.end > start
}

/// The links and the span of the node at position `i` agree with those of
/// its neighbours.
pub open spec fn node_ok(nodes: Seq<SyntaxNode>, i: int) -> bool {
    let n = nodes[i];
    &&& n.start <= n.end
    &&& (n.parent is None <==> i == 0)
    &&& (n.parent matches Some(p) ==> {
        &&& p < i
        &&& nodes[p as int].start <= n.start
        &&& n.end <= nodes[p as int].end
    })
    &&& (n.first_child matches Some(c) ==> {
        &&& i < c < nodes.len()
        &&& nodes[c as int].parent == Some(i as usize)
        &&& nodes[c as int].prev_sibling is None
    })
    &&& (n.next_sibling matches Some(j) ==> {
        &&& i < j < nodes.len()
        &&& nodes[j as int].prev_sibling == Some(i as usize)
        &&& nodes[j as int].parent == n.parent
        &&& n.end <= nodes[j as int].start
    })
    &&& (n.prev_sibling matches Some(j) ==> {
        &&& j < i
        &&& nodes[j as int].next_sibling == Some(i as usize)
    })
    &&& (n.prev_sibling is None ==> (n.parent matches Some(p) ==> nodes[p as int].first_child
        == Some(i as usize)))
}

/// A table of nodes is a tree: it has a root, its positions can be counted
/// and every node is consistent with its neighbours.
pub open spec fn nodes_wf(nodes: Seq<SyntaxNode>) -> bool {
    &&& 0 < nodes.len() <= usize::MAX
    &&& forall|i: int| 0 <= i < nodes.len() ==> #[trigger] node_ok(nodes, i)
}

/// The first node at or after position `k`, along the row of siblings that
/// `k` stands in, that admits `start..end`.
pub open spec fn first_admitting_from(nodes: Seq<SyntaxNode>, k: int, start: int, end: int)
    -> Option<usize>
    decreases nodes.len() - k,
{
    if k < 0 || k >= nodes.len() {
        None
    } else if admits(nodes[k], start, end) {
        Some(k as usize)
    } else {
        match nodes[k].next_sibling {
            Some(j) => if k < j < nodes.len() {
                first_admitting_from(nodes, j as int, start, end)
            } else {
                None
            },
            None => None,
        }
    }
}

/// The first node that admits `start..end` in the row of siblings that
/// begins at `from`.
pub open spec fn first_admitting(
    nodes: Seq<SyntaxNode>,
    from: Option<usize>,
    start: int,
    end: int,
) -> Option<usize> {
    match from {
        None => None,
        Some(k) => first_admitting_from(nodes, k as int, start, end),
    }
}

/// The child of node `i` that a search for `start..end` enters: the first
/// child that admits the range, provided it also begins at or before the
/// range's start.
pub open spec fn child_toward(nodes: Seq<SyntaxNode>, i: int, start: int, end: int) -> Option<
    usize,
> {
    match first_admitting(nodes, nodes[i].first_child, start, end) {
        Some(k) => if nodes[k as int].start <= start {
            Some(k)
        } else {
            None
        },
        None => None,
    }
}

/// The position at which a search for `start..end` that begins at node `i`
/// comes to rest: it enters children for as long as one takes it.
pub open spec fn descend(nodes: Seq<SyntaxNode>, i: int, start: int, end: int) -> int
    decreases nodes.len() - i,
{
    match child_toward(nodes, i, start, end) {
        Some(k) => if i < k < nodes.len() {
            descend(nodes, k as int, start, end)
        } else {
            i
        },
        None => i,
    }
}

/// The last node of the row of siblings that `k` stands in.
pub open spec fn last_in_row(nodes: Seq<SyntaxNode>, k: int) -> int
    decreases nodes.len() - k,
{
    if k < 0 || k >= nodes.len() {
        k
    } else {
        match nodes[k].next_sibling {
            Some(j) => if k < j < nodes.len() {
                last_in_row(nodes, j as int)
            } else {
                k
            },
            None => k,
        }
    }
}

/// The rightmost child of node `i`.
pub open spec fn last_child(nodes: Seq<SyntaxNode>, i: int) -> Option<usize> {
    match nodes[i].first_child {
        Some(c) => Some(last_in_row(nodes, c as int) as usize),
        None => None,
    }
}

/// Whether a node with the span `start..end` can become the new rightmost
/// child of node `parent`: the span is in order, lies within the parent's
/// span and begins at or after the end of the child that is rightmost so far.
pub open spec fn can_add_child(nodes: Seq<SyntaxNode>, parent: int, start: int, end: int) -> bool {
    &&& 0 <= parent < nodes.len()
    &&& start <= end
    &&& nodes[parent].start <= start
    &&& end <= nodes[parent].end
    &&& (last_child(nodes, parent) matches Some(l) ==> nodes[l as int].end <= start)
}

/// The table `nodes` with one more node, the new rightmost child of node
/// `parent`, at the end.
pub open spec fn with_child(nodes: Seq<SyntaxNode>, parent: int, start: usize, end: usize) -> Seq<
    SyntaxNode,
> {
    let at = nodes.len() as usize;
    match last_child(nodes, parent) {
        Some(l) => nodes.update(
            l as int,
            SyntaxNode { next_sibling: Some(at), ..nodes[l as int] },
        ).push(
            SyntaxNode {
                start,
                end,
                parent: Some(parent as usize),
                first_child: None,
                next_sibling: None,
                prev_sibling: Some(l),
            },
        ),
        None => nodes.update(parent, SyntaxNode { first_child: Some(at), ..nodes[parent] }).push(
            SyntaxNode {
                start,
                end,
                parent: Some(parent as usize),
                first_child: None,
                next_sibling: None,
                prev_sibling: None,
            },
        ),
    }
}

/// Every node lies within the span of the root.
pub proof fn lemma_within_root(nodes: Seq<SyntaxNode>, i: int)
    requires
        nodes_wf(nodes),
        0 <= i < nodes.len(),
    ensures
        nodes[0].start <= nodes[i].start,
        nodes[i].start <= nodes[i].end,
        nodes[i].end <= nodes[0].end,
    decreases i,
{
    assert(node_ok(nodes, i));
    if i > 0 {
        lemma_within_root(nodes, nodes[i].parent.unwrap() as int);
    }
}

/// What the walk along a row of siblings finds is a node of that row that
/// admits the range.
pub proof fn lemma_first_admitting(nodes: Seq<SyntaxNode>, k: int, start: int, end: int)
    requires
        nodes_wf(nodes),
        0 <= k < nodes.len(),
    ensures
        first_admitting_from(nodes, k, start, end) matches Some(r) ==> {
            &&& k <= r < nodes.len()
            &&& admits(nodes[r as int], start, end)
            &&& nodes[r as int].parent == nodes[k].parent
        },
    decreases nodes.len() - k,
{
    assert(node_ok(nodes, k));
    if !admits(nodes[k], start, end) {
        if let Some(j) = nodes[k].next_sibling {
            lemma_first_admitting(nodes, j as int, start, end);
        }
    }
}

/// The child that a search enters is a child of the node and spans the
/// range.
pub proof fn lemma_child_toward(nodes: Seq<SyntaxNode>, i: int, start: int, end: int)
    requires
        nodes_wf(nodes),
        0 <= i < nodes.len(),
    ensures
        child_toward(nodes, i, start, end) matches Some(c) ==> {
            &&& i < c < nodes.len()
            &&& nodes[c as int].parent == Some(i as usize)
            &&& nodes[c as int].start <= start
            &&& admits(nodes[c as int], start, end)
        },
{
    assert(node_ok(nodes, i));
    if let Some(f) = nodes[i].first_child {
        lemma_first_admitting(nodes, f as int, start, end);
    }
}

/// Where a search comes to rest: at a node at or below the one it began at,
/// none of whose children takes it further; and if the node it began at
/// spans the range, so does the node it rests at.
pub proof fn lemma_descend(nodes: Seq<SyntaxNode>, i: int, start: int, end: int)
    requires
        nodes_wf(nodes),
        0 <= i < nodes.len(),
    ensures
        i <= descend(nodes, i, start, end) < nodes.len(),
        child_toward(nodes, descend(nodes, i, start, end), start, end) is None,
        spans(nodes[i], start, end) ==> spans(nodes[descend(nodes, i, start, end)], start, end),
        descend(nodes, i, start, end) != i ==> spans(
            nodes[descend(nodes, i, start, end)],
            start,
            end,
        ),
    decreases nodes.len() - i,
{
    lemma_child_toward(nodes, i, start, end);
    if let Some(c) = child_toward(nodes, i, start, end) {
        lemma_descend(nodes, c as int, start, end);
    }
}

/// Whether node `a` is node `d` or stands above it.
pub open spec fn is_ancestor(nodes: Seq<SyntaxNode>, a: int, d: int) -> bool
    decreases d,
{
    if d == a {
        true
    } else {
        match nodes[d].parent {
            Some(p) => 0 <= p < d && is_ancestor(nodes, a, p as int),
            None => false,
        }
    }
}

/// A node above another is at an earlier position and spans it.
pub proof fn lemma_ancestor_spans(nodes: Seq<SyntaxNode>, a: int, d: int)
    requires
        nodes_wf(nodes),
        0 <= d < nodes.len(),
        is_ancestor(nodes, a, d),
    ensures
        0 <= a <= d,
        spans(nodes[a], nodes[d].start as int, nodes[d].end as int),
    decreases d,
{
    assert(node_ok(nodes, d));
    if d != a {
        lemma_ancestor_spans(nodes, a, nodes[d].parent.unwrap() as int);
    }
}

/// Being above is transitive.
pub proof fn lemma_ancestor_trans(nodes: Seq<SyntaxNode>, a: int, b: int, d: int)
    requires
        is_ancestor(nodes, a, b),
        is_ancestor(nodes, b, d),
    ensures
        is_ancestor(nodes, a, d),
    decreases d,
{
    if d != b && d != a {
        lemma_ancestor_trans(nodes, a, b, nodes[d].parent.unwrap() as int);
    }
}

/// How many nodes stand above node `i`.
pub open spec fn node_depth(nodes: Seq<SyntaxNode>, i: int) -> nat
    decreases i,
{
    if i <= 0 || i >= nodes.len() {
        0
    } else {
        match nodes[i].parent {
            Some(p) => if p < i {
                1 + node_depth(nodes, p as int)
            } else {
                0
            },
            None => 0,
        }
    }
}

/// A node that stands above another has fewer nodes above it.
pub proof fn lemma_ancestor_depth(nodes: Seq<SyntaxNode>, a: int, d: int)
    requires
        nodes_wf(nodes),
        0 <= d < nodes.len(),
        is_ancestor(nodes, a, d),
    ensures
        node_depth(nodes, a) <= node_depth(nodes, d),
        a != d ==> node_depth(nodes, a) < node_depth(nodes, d),
    decreases d,
{
    assert(node_ok(nodes, d));
    if d != a {
        lemma_ancestor_depth(nodes, a, nodes[d].parent.unwrap() as int);
    }
}

/// Two children of one node that span the same range, which is not empty,
/// are one child.
pub proof fn lemma_one_child_spans(
    nodes: Seq<SyntaxNode>,
    i: int,
    a: int,
    b: int,
    start: int,
    end: int,
)
    requires
        nodes_wf(nodes),
        0 <= i < nodes.len(),
        0 <= a < nodes.len(),
        0 <= b < nodes.len(),
        nodes[a].parent == Some(i as usize),
        nodes[b].parent == Some(i as usize),
        start < end,
        spans(nodes[a], start, end),
        spans(nodes[b], start, end),
    ensures
        a == b,
{
    lemma_child_toward_spanning(nodes, i, a, start, end);
    lemma_child_toward_spanning(nodes, i, b, start, end);
}

/// Two nodes that stand above the same node stand in one line: the one at
/// the earlier position stands above the other.
pub proof fn lemma_ancestors_in_line(nodes: Seq<SyntaxNode>, a: int, b: int, m: int)
    requires
        nodes_wf(nodes),
        0 <= m < nodes.len(),
        is_ancestor(nodes, a, m),
        is_ancestor(nodes, b, m),
        a <= b,
    ensures
        is_ancestor(nodes, a, b),
    decreases m,
{
    lemma_ancestor_spans(nodes, a, m);
    lemma_ancestor_spans(nodes, b, m);
    if m != b {
        assert(node_ok(nodes, m));
        lemma_ancestors_in_line(nodes, a, b, nodes[m].parent.unwrap() as int);
    }
}

/// The root stands above every node.
pub proof fn lemma_root_is_ancestor(nodes: Seq<SyntaxNode>, d: int)
    requires
        nodes_wf(nodes),
        0 <= d < nodes.len(),
    ensures
        is_ancestor(nodes, 0, d),
    decreases d,
{
    assert(node_ok(nodes, d));
    if d != 0 {
        lemma_root_is_ancestor(nodes, nodes[d].parent.unwrap() as int);
    }
}

/// Of a node `a` that stands strictly above `d`, one child stands above `d`
/// or is `d`.
pub proof fn lemma_child_above(nodes: Seq<SyntaxNode>, a: int, d: int) -> (c: int)
    requires
        nodes_wf(nodes),
        0 <= d < nodes.len(),
        is_ancestor(nodes, a, d),
        a != d,
    ensures
        a < c <= d,
        nodes[c].parent == Some(a as usize),
        is_ancestor(nodes, c, d),
    decreases d,
{
    assert(node_ok(nodes, d));
    let p = nodes[d].parent.unwrap() as int;
    lemma_ancestor_spans(nodes, a, d);
    if p == a {
        d
    } else {
        let c = lemma_child_above(nodes, a, p);
        c
    }
}

/// The walk along a row of siblings that begins at `z` finds `y`, a node
/// further along that row that begins at or before the start of a range
/// that is not empty and admits it.
pub proof fn lemma_row_finds(nodes: Seq<SyntaxNode>, z: int, y: int, start: int, end: int)
    requires
        nodes_wf(nodes),
        0 <= y < nodes.len(),
        start < end,
        nodes[y].start <= start,
        admits(nodes[y], start, end),
        first_admitting_from(nodes, z, start, end) == Some(y as usize),
        0 <= z <= y,
        nodes[z].start <= nodes[y].start,
    ensures
        nodes[y].parent matches Some(p) ==> first_admitting(
            nodes,
            nodes[p as int].first_child,
            start,
            end,
        ) == Some(y as usize),
    decreases z,
{
    assert(node_ok(nodes, z));
    assert(node_ok(nodes, y));
    match nodes[z].prev_sibling {
        Some(w) => {
            assert(node_ok(nodes, w as int));
            lemma_row_parent(nodes, z, y, start, end);
            lemma_row_finds(nodes, w as int, y, start, end);
        },
        None => {
            lemma_first_admitting(nodes, z, start, end);
        },
    }
}

/// The node that the walk along a row finds has the parent of the node the
/// walk began at.
pub proof fn lemma_row_parent(nodes: Seq<SyntaxNode>, z: int, y: int, start: int, end: int)
    requires
        nodes_wf(nodes),
        0 <= z < nodes.len(),
        first_admitting_from(nodes, z, start, end) == Some(y as usize),
        0 <= y < nodes.len(),
    ensures
        nodes[y].parent == nodes[z].parent,
{
    lemma_first_admitting(nodes, z, start, end);
}

/// A search for a range that is not empty enters the child that spans it.
pub proof fn lemma_child_toward_spanning(
    nodes: Seq<SyntaxNode>,
    i: int,
    y: int,
    start: int,
    end: int,
)
    requires
        nodes_wf(nodes),
        0 <= i < nodes.len(),
        0 <= y < nodes.len(),
        nodes[y].parent == Some(i as usize),
        start < end,
        spans(nodes[y], start, end),
    ensures
        child_toward(nodes, i, start, end) == Some(y as usize),
{
    assert(node_ok(nodes, y));
    lemma_row_finds(nodes, y, y, start, end);
}

/// The node at which a search for a range that is not empty comes to rest
/// is the smallest that spans the range: every node below the one the
/// search began at that spans the range stands above it or is it.
pub proof fn lemma_descend_smallest(nodes: Seq<SyntaxNode>, i: int, x: int, start: int, end: int)
    requires
        nodes_wf(nodes),
        0 <= x < nodes.len(),
        is_ancestor(nodes, i, x),
        start < end,
        spans(nodes[x], start, end),
    ensures
        is_ancestor(nodes, x, descend(nodes, i, start, end)),
    decreases nodes.len() - i,
{
    lemma_ancestor_spans(nodes, i, x);
    if x == i {
        lemma_descend_below(nodes, i, start, end);
    } else {
        let y = lemma_child_above(nodes, i, x);
        lemma_ancestor_spans(nodes, y, x);
        lemma_child_toward_spanning(nodes, i, y, start, end);
        lemma_descend_smallest(nodes, y, x, start, end);
    }
}

/// The node at which a search comes to rest stands below the node it began
/// at, or is that node.
pub proof fn lemma_descend_below(nodes: Seq<SyntaxNode>, i: int, start: int, end: int)
    requires
        nodes_wf(nodes),
        0 <= i < nodes.len(),
    ensures
        is_ancestor(nodes, i, descend(nodes, i, start, end)),
    decreases nodes.len() - i,
{
    lemma_child_toward(nodes, i, start, end);
    if let Some(c) = child_toward(nodes, i, start, end) {
        lemma_descend_below(nodes, c as int, start, end);
        lemma_descend(nodes, c as int, start, end);
        let r = descend(nodes, c as int, start, end);
        assert(is_ancestor(nodes, i, i));
        assert(is_ancestor(nodes, i, c as int));
        lemma_ancestor_trans(nodes, i, c as int, r);
    }
}

/// One node in a list of the nodes of a tree, in which every node stands
/// before its children and the children of a node stand from left to right.
#[derive(Clone, Copy, Debug, PartialEq, Eq)]
pub struct Row {
    /// How many nodes lie above the node; the root, which is not listed, has
    /// none above it.
    pub depth: usize,
    /// First byte of the node's text.
    pub start: usize,
    /// One past the last byte of the node's text.
    pub end: usize,
}

/// Whether the rows lie as the nodes of a walk do that visits every node
/// before its children: the first row one level below the root, and no row
/// more than one level below the row before it.
pub open spec fn walked(rows: Seq<Row>) -> bool {
    forall|i: int|
        0 <= i < rows.len() ==> 1 <= (#[trigger] rows[i]).depth && rows[i].depth <= if i == 0 {
            1
        } else {
            rows[i - 1].depth + 1
        }
}

/// A table that is being filled from a list of rows.
pub struct Building {
    /// The nodes that are entered so far.
    pub nodes: Seq<SyntaxNode>,
    /// The positions of the node that was entered last and of the nodes
    /// above it, from the root down.
    pub path: Seq<usize>,
}

/// The table of a tree that consists of a root with the span `start..end`;
/// there is none if the span ends before it starts.
pub open spec fn begun(start: usize, end: usize) -> Option<Building> {
    if start <= end {
        Some(
            Building {
                nodes: seq![
                    SyntaxNode {
                        start,
                        end,
                        parent: None,
                        first_child: None,
                        next_sibling: None,
                        prev_sibling: None,
                    },
                ],
                path: seq![0usize],
            },
        )
    } else {
        None
    }
}

/// The table after one more row: the row's node becomes the new rightmost
/// child of the node one level up on the path. There is none if no node of
/// the path lies one level above the row, or if the node cannot become that
/// child.
pub open spec fn with_row(b: Building, row: Row) -> Option<Building> {
    if 1 <= row.depth <= b.path.len() && can_add_child(
        b.nodes,
        b.path[row.depth - 1] as int,
        row.start as int,
        row.end as int,
    ) {
        Some(
            Building {
                nodes: with_child(b.nodes, b.path[row.depth - 1] as int, row.start, row.end),
                path: b.path.take(row.depth as int).push(b.nodes.len() as usize),
            },
        )
    } else {
        None
    }
}

/// The table after the first `n` rows.
pub open spec fn built(start: usize, end: usize, rows: Seq<Row>, n: int) -> Option<Building>
    decreases n,
{
    if n <= 0 {
        begun(start, end)
    } else {
        match built(start, end, rows, n - 1) {
            Some(b) => with_row(b, rows[n - 1]),
            None => None,
        }
    }
}

/// Once there is no table, further rows make none.
pub proof fn lemma_built_none(start: usize, end: usize, rows: Seq<Row>, k: int, n: int)
    requires
        0 <= k <= n,
        built(start, end, rows, k) is None,
    ensures
        built(start, end, rows, n) is None,
    decreases n - k,
{
    if k < n {
        assert(built(start, end, rows, k + 1) is None);
        lemma_built_none(start, end, rows, k + 1, n);
    }
}

/// While the rows of a walk are entered, the path ends at the node that was
/// entered last, so that the next row finds the node one level above it on
/// the path: there is no table only where a node cannot become a child.
pub proof fn lemma_built_walked(start: usize, end: usize, rows: Seq<Row>, n: int)
    requires
        walked(rows),
        0 <= n <= rows.len(),
        built(start, end, rows, n) is Some,
    ensures
        built(start, end, rows, n).unwrap().path.len() == if n == 0 {
            1
        } else {
            rows[n - 1].depth + 1
        },
        n < rows.len() ==> 1 <= rows[n].depth <= built(start, end, rows, n).unwrap().path.len(),
    decreases n,
{
    if n > 0 {
        lemma_built_walked(start, end, rows, n - 1);
    }
}

/// A parse tree.
pub struct SyntaxTree {
    nodes: Vec<SyntaxNode>,
}

impl View for SyntaxTree {
    type V = Seq<SyntaxNode>;

    closed spec fn view(&self) -> Seq<SyntaxNode> {
        self.nodes@
    }
}

impl SyntaxTree {
    /// The table of nodes forms a tree.
    pub open spec fn wf(&self) -> bool {
        nodes_wf(self@)
    }

    /// A tree that consists of a root with the span `start..end`; nothing if
    /// the span ends before it starts.
    pub fn new(start: usize, end: usize) -> (r: Option<SyntaxTree>)
        ensures
            r is Some <==> start <= end,
            r matches Some(tree) ==> tree.wf() && tree@ == seq![
                SyntaxNode {
                    start,
                    end,
                    parent: None,
                    first_child: None,
                    next_sibling: None,
                    prev_sibling: None,
                },
            ],
    {
        if start > end {
            return None;
        }
        let root = SyntaxNode {
            start,
            end,
            parent: None,
            first_child: None,
            next_sibling: None,
            prev_sibling: None,
        };
        let mut nodes: Vec<SyntaxNode> = Vec::new();
        nodes.push(root);
        let tree = SyntaxTree { nodes };
        proof {
            assert(tree@ == seq![root]);
            assert(node_ok(tree@, 0));
        }
        Some(tree)
    }

    /// The rightmost child of node `i`.
    pub fn last_child(&self, i: usize) -> (r: Option<usize>)
        requires
            self.wf(),
            i < self@.len(),
        ensures
            r == last_child(self@, i as int),
            r matches Some(l) ==> {
                &&& i < l < self@.len()
                &&& self@[l as int].parent == Some(i)
                &&& self@[l as int].next_sibling is None
            },
    {
        let first = self.first_child(i);
        match first {
            None => None,
            Some(c) => {
                let mut at: usize = c;
                proof {
                    assert(node_ok(self@, i as int));
                }
                loop
                    invariant
                        self.wf(),
                        i < at < self@.len(),
                        self@[i as int].first_child == Some(c),
                        self@[at as int].parent == Some(i),
                        last_in_row(self@, c as int) == last_in_row(self@, at as int),
                    decreases self@.len() - at,
                {
                    match self.next_sibling(at) {
                        Some(j) => {
                            proof {
                                assert(node_ok(self@, at as int));
                            }
                            at = j;
                        },
                        None => {
                            return Some(at);
                        },
                    }
                }
            },
        }
    }

    /// Adds a node with the span `start..end` as the new rightmost child of
    /// node `parent` and returns its position. Nothing is added, and nothing
    /// returned, where the tree would not stay one.
    pub fn add_child(&mut self, parent: usize, start: usize, end: usize) -> (r: Option<usize>)
        requires
            old(self).wf(),
        ensures
            final(self).wf(),
            r is Some <==> can_add_child(old(self)@, parent as int, start as int, end as int),
            r matches Some(k) ==> k == old(self)@.len() && final(self)@ == with_child(
                old(self)@,
                parent as int,
                start,
                end,
            ),
            r is Some ==> final(self)@.len() == old(self)@.len() + 1,
            r is None ==> final(self)@ == old(self)@,
    {
        if parent >= self.nodes.len() || start > end {
            return None;
        }
        let p = self.nodes[parent];
        if p.start > start || end > p.end {
            return None;
        }
        let at = self.nodes.len();
        let last = self.last_child(parent);
        let ghost before = self@;
        proof {
            assert(node_ok(before, parent as int));
        }
        match last {
            Some(l) => {
                let left = self.nodes[l];
                if left.end > start {
                    return None;
                }
                proof {
                    assert(node_ok(before, l as int));
                }
                self.nodes.set(l, SyntaxNode { next_sibling: Some(at), ..left });
                self.nodes.push(
                    SyntaxNode {
                        start,
                        end,
                        parent: Some(parent),
                        first_child: None,
                        next_sibling: None,
                        prev_sibling: Some(l),
                    },
                );
            },
            None => {
                self.nodes.set(parent, SyntaxNode { first_child: Some(at), ..p });
                self.nodes.push(
                    SyntaxNode {
                        start,
                        end,
                        parent: Some(parent),
                        first_child: None,
                        next_sibling: None,
                        prev_sibling: None,
                    },
                );
            },
        }
        let count = self.nodes.len();
        proof {
            let after = self@;
            assert(after == with_child(before, parent as int, start, end));
            assert forall|i: int| 0 <= i < after.len() implies #[trigger] node_ok(after, i) by {
                if i < before.len() {
                    assert(node_ok(before, i));
                }
            }
        }
        Some(at)
    }

    /// The tree with a root that spans `start..end` and the nodes of `rows`
    /// below it: every row becomes the rightmost child of the node that was
    /// entered last among those one level above it. There is no tree if the
    /// root's span ends before it starts, if a row lies more than one level
    /// below the row before it or at the level of the root, or if a row's
    /// node cannot be added as a child.
    pub fn from_rows(start: usize, end: usize, rows: &Vec<Row>) -> (r: Option<SyntaxTree>)
        ensures
            match built(start, end, rows@, rows@.len() as int) {
                Some(b) => r matches Some(tree) && tree@ == b.nodes && tree.wf(),
                None => r is None,
            },
    {
        let mut tree = match SyntaxTree::new(start, end) {
            Some(tree) => tree,
            None => {
                proof {
                    lemma_built_none(start, end, rows@, 0, rows@.len() as int);
                }
                return None;
            },
        };
        let mut path: Vec<usize> = Vec::new();
        path.push(0);
        let mut i: usize = 0;
        while i < rows.len()
            invariant
                i <= rows@.len(),
                tree.wf(),
                built(start, end, rows@, i as int) == Some(
                    Building { nodes: tree@, path: path@ },
                ),
            decreases rows@.len() - i,
        {
            let row = rows[i];
            let ghost before = Building { nodes: tree@, path: path@ };
            if row.depth == 0 || row.depth > path.len() {
                proof {
                    assert(with_row(before, row) is None);
                    assert(built(start, end, rows@, i + 1) is None);
                    lemma_built_none(start, end, rows@, i + 1, rows@.len() as int);
                }
                return None;
            }
            let above = path[row.depth - 1];
            match tree.add_child(above, row.start, row.end) {
                Some(at) => {
                    path.truncate(row.depth);
                    path.push(at);
                    proof {
                        assert(path@ == before.path.take(row.depth as int).push(at));
                        assert(built(start, end, rows@, i + 1) == with_row(before, row));
                    }
                },
                None => {
                    proof {
                        assert(with_row(before, row) is None);
                        assert(built(start, end, rows@, i + 1) is None);
                        lemma_built_none(start, end, rows@, i + 1, rows@.len() as int);
                    }
                    return None;
                },
            }
            i = i + 1;
        }
        Some(tree)
    }

    /// The first node with the span `start..end`, if there is one.
    pub fn node_with_span(&self, start: usize, end: usize) -> (r: Option<usize>)
        ensures
            match r {
                Some(y) => {
                    &&& y < self@.len()
                    &&& self@[y as int].start == start
                    &&& self@[y as int].end == end
                    &&& forall|k: int|
                        0 <= k < y ==> !((#[trigger] self@[k]).start == start && self@[k].end
                            == end)
                },
                None => forall|k: int|
                    0 <= k < self@.len() ==> !((#[trigger] self@[k]).start == start && self@[k].end
                        == end),
            },
    {
        let mut i: usize = 0;
        while i < self.nodes.len()
            invariant
                i <= self@.len(),
                forall|k: int|
                    0 <= k < i ==> !((#[trigger] self@[k]).start == start && self@[k].end == end),
            decreases self@.len() - i,
        {
            if self.nodes[i].start == start && self.nodes[i].end == end {
                return Some(i);
            }
            i = i + 1;
        }
        None
    }

    /// The node at position `i`.
    pub fn node(&self, i: usize) -> (n: SyntaxNode)
        requires
            i < self@.len(),
        ensures
            n == self@[i as int],
    {
        self.nodes[i]
    }

    /// Number of nodes.
    pub fn len(&self) -> (n: usize)
        ensures
            n == self@.len(),
    {
        self.nodes.len()
    }

    /// Position of the root.
    pub fn root(&self) -> (r: usize)
        ensures
            r == 0,
    {
        0
    }

    /// First byte of node `i`.
    pub fn start_byte(&self, i: usize) -> (b: usize)
        requires
            i < self@.len(),
        ensures
            b == self@[i as int].start,
    {
        self.nodes[i].start
    }

    /// One past the last byte of node `i`.
    pub fn end_byte(&self, i: usize) -> (b: usize)
        requires
            i < self@.len(),
        ensures
            b == self@[i as int].end,
    {
        self.nodes[i].end
    }

    /// The node that encloses node `i`.
    pub fn parent(&self, i: usize) -> (p: Option<usize>)
        requires
            self.wf(),
            i < self@.len(),
        ensures
            p == self@[i as int].parent,
            p matches Some(k) ==> k < i,
    {
        proof {
            assert(node_ok(self@, i as int));
        }
        self.nodes[i].parent
    }

    /// The leftmost child of node `i`.
    pub fn first_child(&self, i: usize) -> (c: Option<usize>)
        requires
            self.wf(),
            i < self@.len(),
        ensures
            c == self@[i as int].first_child,
            c matches Some(k) ==> i < k < self@.len(),
    {
        proof {
            assert(node_ok(self@, i as int));
        }
        self.nodes[i].first_child
    }

    /// The sibling to the right of node `i`.
    pub fn next_sibling(&self, i: usize) -> (s: Option<usize>)
        requires
            self.wf(),
            i < self@.len(),
        ensures
            s == self@[i as int].next_sibling,
            s matches Some(k) ==> i < k < self@.len(),
    {
        proof {
            assert(node_ok(self@, i as int));
        }
        self.nodes[i].next_sibling
    }

    /// The sibling to the left of node `i`.
    pub fn prev_sibling(&self, i: usize) -> (s: Option<usize>)
        requires
            self.wf(),
            i < self@.len(),
        ensures
            s == self@[i as int].prev_sibling,
            s matches Some(k) ==> k < i,
    {
        proof {
            assert(node_ok(self@, i as int));
        }
        self.nodes[i].prev_sibling
    }

    /// The child of node `i` that a search for `start..end` enters, if any.
    pub fn child_for_byte_range(&self, i: usize, start: usize, end: usize) -> (c: Option<usize>)
        requires
            self.wf(),
            i < self@.len(),
        ensures
            c == child_toward(self@, i as int, start as int, end as int),
            c matches Some(k) ==> i < k < self@.len(),
    {
        let mut at: Option<usize> = self.first_child(i);
        let ghost first = at;
        loop
            invariant
                self.wf(),
                i < self@.len(),
                at matches Some(k) ==> i < k < self@.len(),
                first_admitting(self@, first, start as int, end as int) == first_admitting(
                    self@,
                    at,
                    start as int,
                    end as int,
                ),
                first == self@[i as int].first_child,
            decreases
                match at {
                    Some(k) => self@.len() - k,
                    None => 0,
                },
        {
            match at {
                None => {
                    return None;
                },
                Some(k) => {
                    let n = self.nodes[k];
                    if n.end >= end && n.end > start {
                        if n.start <= start {
                            return Some(k);
                        } else {
                            return None;
                        }
                    }
                    let next = self.next_sibling(k);
                    if next.is_none() {
                        return None;
                    }
                    at = next;
                },
            }
        }
    }

    /// The smallest node at or below node `from` that spans `start..end`:
    /// the search enters the child that spans the range for as long as there
    /// is one, and rests at `from` itself when none of its children does. A
    /// child that ends where the range starts is passed over, so that an
    /// empty range between two children belongs to the one on its right.
    /// Every node at or below `from` that spans a range which is not empty
    /// stands above the node that is found, or is that node.
    pub fn descendant_for_byte_range(&self, from: usize, start: usize, end: usize) -> (r: usize)
        requires
            self.wf(),
            from < self@.len(),
        ensures
            r == descend(self@, from as int, start as int, end as int),
            from <= r < self@.len(),
            is_ancestor(self@, from as int, r as int),
            spans(self@[from as int], start as int, end as int) ==> spans(
                self@[r as int],
                start as int,
                end as int,
            ),
            start < end ==> forall|x: int|
                0 <= x < self@.len() && is_ancestor(self@, from as int, x) && spans(
                    #[trigger] self@[x],
                    start as int,
                    end as int,
                ) ==> is_ancestor(self@, x, r as int),
    {
        let mut at: usize = from;
        loop
            invariant
                self.wf(),
                from <= at < self@.len(),
                descend(self@, from as int, start as int, end as int) == descend(
                    self@,
                    at as int,
                    start as int,
                    end as int,
                ),
            decreases self@.len() - at,
        {
            match self.child_for_byte_range(at, start, end) {
                Some(k) => {
                    at = k;
                },
                None => {
                    proof {
                        lemma_descend(self@, from as int, start as int, end as int);
                        lemma_descend_below(self@, from as int, start as int, end as int);
                        if start < end {
                            let (s, e) = (start as int, end as int);
                            assert forall|x: int|
                                0 <= x < self@.len() && is_ancestor(self@, from as int, x)
                                    && spans(#[trigger] self@[x], s, e) implies is_ancestor(
                                self@,
                                x,
                                descend(self@, from as int, s, e),
                            ) by {
                                lemma_descend_smallest(self@, from as int, x, s, e);
                            }
                        }
                    }
                    return at;
                },
            }
        }
    }
}

} // verus!
