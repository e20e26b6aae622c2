//! Selection by syntax: grow a selection to the enclosing node, shrink it to
//! the first child, or move it to a neighbouring sibling.
//!
//! Every operation treats the ranges of a selection one by one. A range is
//! turned into a byte range, the cursor is reset to it, moved, and the span
//! of the node it ends at becomes the new range, facing as the old one did.

use crate::layer::{Forest, Position};
use crate::selection::{Direction, Range, Selection};
use crate::syntax::Syntax;
use crate::text::{
    byte_len, byte_offset, char_offset, lemma_char_offset_floor, lemma_char_offset_monotonic,
    text_byte_to_char, text_char_to_byte, text_chars, text_len_bytes, text_len_chars,
};
use crate::tree::{lemma_within_root, SyntaxNode};
use crate::tree_cursor::TreeCursor;
use ropey::RopeSlice;
use vstd::prelude::*;

verus! {

/// A step from the node that spans a selection to the node that is selected
/// next.
#[derive(Clone, Copy, Debug, PartialEq, Eq, Structural)]
pub enum Motion {
    /// To the first child.
    FirstChild,
    /// To the sibling on the right; from a last child, to the sibling on the
    /// right of the parent, if the parent has one.
    NextSibling,
    /// To the sibling on the left; from a first child, to the sibling on the
    /// left of the parent, if the parent has one.
    PrevSibling,
}

impl Forest {
    /// No node of any layer ends after `limit`.
    pub open spec fn within(self, limit: int) -> bool {
        forall|id: crate::layer::LayerId|
            self.layers.contains_key(id) ==> (#[trigger] self.layers[id]).tree@[0].end <= limit
    }

    /// Where a climb from `pos` ends: it goes up for as long as the node
    /// spans exactly `start..end` and there is a position above.
    pub open spec fn climb(self, pos: Position, start: int, end: int) -> Position
        decreases self.layers[pos.layer].depth, pos.node,
    {
        let n = self.node(pos);
        if n.start != start || n.end != end {
            pos
        } else {
            match self.parent_of(pos) {
                Some(up) => if self.above(up, pos) {
                    self.climb(up, start, end)
                } else {
                    up
                },
                None => pos,
            }
        }
    }

    /// The sibling of `pos` on the side that `forward` names.
    pub open spec fn sibling_of(self, pos: Position, forward: bool) -> Option<Position> {
        if forward {
            self.next_sibling_of(pos)
        } else {
            self.prev_sibling_of(pos)
        }
    }

    /// Where a step to a sibling ends: at the sibling if there is one; else
    /// at the sibling of the position above if there is one; else where it
    /// began. The step looks one level up and no further.
    pub open spec fn sibling_step(self, pos: Position, forward: bool) -> Position {
        match self.sibling_of(pos, forward) {
            Some(s) => s,
            None => match self.parent_of(pos) {
                Some(up) => match self.sibling_of(up, forward) {
                    Some(s) => s,
                    None => pos,
                },
                None => pos,
            },
        }
    }

    /// Where `motion` leads from `pos`.
    pub open spec fn moved(self, pos: Position, motion: Motion) -> Position {
        match motion {
            Motion::FirstChild => match self.first_child_of(pos) {
                Some(c) => c,
                None => pos,
            },
            Motion::NextSibling => self.sibling_step(pos, true),
            Motion::PrevSibling => self.sibling_step(pos, false),
        }
    }

    /// The node whose span an expanded selection of the bytes `start..end`
    /// takes.
    pub open spec fn expanded(self, start: int, end: int) -> Position {
        self.climb(self.entry(start, end), start, end)
    }

    /// The node whose span a selection of the bytes `start..end` takes after
    /// `motion`.
    pub open spec fn selected(self, start: int, end: int, motion: Motion) -> Position {
        self.moved(self.entry(start, end), motion)
    }
}

/// The bytes that a range of characters takes.
pub open spec fn byte_span(chars: Seq<char>, range: Range) -> (int, int) {
    (byte_offset(chars, range.lower() as int), byte_offset(chars, range.upper() as int))
}

/// The range over the characters of a node's span that faces in `direction`.
pub open spec fn node_range(chars: Seq<char>, n: SyntaxNode, direction: Direction) -> Range {
    Range::over(
        char_offset(chars, n.start as int) as usize,
        char_offset(chars, n.end as int) as usize,
        direction,
    )
}

/// What `expand_selection` makes of one range.
pub open spec fn expanded_range(forest: Forest, chars: Seq<char>, range: Range) -> Range {
    let (start, end) = byte_span(chars, range);
    node_range(chars, forest.node(forest.expanded(start, end)), range.facing())
}

/// What a selection by `motion` makes of one range.
pub open spec fn moved_range(forest: Forest, chars: Seq<char>, range: Range, motion: Motion)
    -> Range {
    let (start, end) = byte_span(chars, range);
    node_range(chars, forest.node(forest.selected(start, end, motion)), range.facing())
}

/// Whether the selection operations can be applied: no range of the
/// selection reaches beyond the last character of the text, and no node of
/// the syntax beyond its last byte.
pub open spec fn applicable(forest: Forest, chars: Seq<char>, selection: Selection) -> bool {
    &&& forest.wf()
    &&& forest.within(byte_len(chars))
    &&& selection.within(chars.len() as int)
}

/// The range over the characters of the node that the cursor stands at.
fn range_at(cursor: &TreeCursor, text: &RopeSlice, direction: Direction) -> (r: Range)
    requires
        cursor.wf(),
        cursor.forest().within(byte_len(text_chars(*text))),
    ensures
        r == node_range(text_chars(*text), cursor.forest().node(cursor.pos()), direction),
        r.faces(direction),
        r.upper() <= text_chars(*text).len(),
{
    let node = cursor.node();
    proof {
        let forest = cursor.forest();
        let pos = cursor.pos();
        assert(forest.layer_ok(pos.layer));
        lemma_within_root(forest.layers[pos.layer].tree@, pos.node);
        let chars = text_chars(*text);
        lemma_char_offset_floor(chars, node.start as int);
        lemma_char_offset_floor(chars, node.end as int);
        lemma_char_offset_monotonic(chars, node.start as int, node.end as int);
    }
    let from = text_byte_to_char(text, node.start);
    let to = text_byte_to_char(text, node.end);
    Range::new(to, from).with_direction(direction)
}

/// Moves the cursor from the node that spans a selection to the node that
/// is selected next.
fn apply_motion(cursor: &mut TreeCursor, motion: Motion)
    requires
        old(cursor).wf(),
    ensures
        final(cursor).wf(),
        final(cursor).forest() == old(cursor).forest(),
        final(cursor).pos() == old(cursor).forest().moved(old(cursor).pos(), motion),
{
    match motion {
        Motion::FirstChild => {
            cursor.goto_first_child();
        },
        Motion::NextSibling => {
            cursor.step_to_sibling(true);
        },
        Motion::PrevSibling => {
            cursor.step_to_sibling(false);
        },
    }
}

/// Whether the selection operations can be applied to a syntax, a text and a
/// selection.
pub fn in_bounds(syntax: &Syntax, text: RopeSlice, selection: &Selection) -> (ok: bool)
    requires
        syntax.wf(),
    ensures
        ok == applicable(syntax.forest(), text_chars(text), *selection),
{
    syntax.fits(text_len_bytes(&text)) && selection.fits(text_len_chars(&text))
}

/// Grows every range of the selection to the span of the smallest node that
/// spans it; a range that is such a span already grows to the span of the
/// nearest node above with another span, through the enclosing layers if
/// need be, and stays as it is when there is none.
pub fn expand_selection(syntax: &Syntax, text: RopeSlice, selection: Selection) -> (r: Selection)
    requires
        applicable(syntax.forest(), text_chars(text), selection),
    ensures
        r@.len() == selection@.len(),
        r.primary() == selection.primary(),
        forall|i: int| 0 <= i < r@.len() ==> (#[trigger] r@[i]).faces(selection@[i].facing()),
        applicable(syntax.forest(), text_chars(text), r),
        forall|i: int|
            0 <= i < r@.len() ==> #[trigger] r@[i] == expanded_range(
                syntax.forest(),
                text_chars(text),
                selection@[i],
            ),
{
    let mut cursor = syntax.walk();
    let ghost forest = syntax.forest();
    let ghost chars = text_chars(text);
    let ranges = selection.ranges();
    let mut out: Vec<Range> = Vec::new();
    let mut i: usize = 0;
    while i < ranges.len()
        invariant
            i <= ranges@.len(),
            ranges@ == selection@,
            applicable(forest, chars, selection),
            chars == text_chars(text),
            cursor.wf(),
            cursor.forest() == forest,
            out@.len() == i,
            forall|k: int|
                0 <= k < i ==> #[trigger] out@[k] == expanded_range(forest, chars, ranges@[k]),
            forall|k: int| 0 <= k < i ==> (#[trigger] out@[k]).faces(ranges@[k].facing()),
            forall|k: int| 0 <= k < i ==> (#[trigger] out@[k]).upper() <= chars.len(),
        decreases ranges@.len() - i,
    {
        let range = ranges[i];
        proof {
            assert(selection@[i as int].upper() <= chars.len());
        }
        let from = text_char_to_byte(&text, range.from());
        let to = text_char_to_byte(&text, range.to());
        cursor.reset_to_byte_range(from, to);
        loop
            invariant
                cursor.wf(),
                cursor.forest() == forest,
                forest.climb(cursor.pos(), from as int, to as int) == forest.expanded(
                    from as int,
                    to as int,
                ),
            ensures
                cursor.pos() == forest.expanded(from as int, to as int),
            decreases forest.layers[cursor.pos().layer].depth, cursor.pos().node,
        {
            let node = cursor.node();
            if node.start != from || node.end != to {
                break ;
            }
            proof {
                forest.lemma_parent_above(cursor.pos());
            }
            if !cursor.goto_parent() {
                break ;
            }
        }
        out.push(range_at(&cursor, &text, range.direction()));
        i = i + 1;
    }
    Selection::new(out, selection.primary_index())
}

/// Shrinks every range of the selection to the first child of the smallest
/// node that spans it.
pub fn shrink_selection(syntax: &Syntax, text: RopeSlice, selection: Selection) -> (r: Selection)
    requires
        applicable(syntax.forest(), text_chars(text), selection),
    ensures
        r@.len() == selection@.len(),
        r.primary() == selection.primary(),
        forall|i: int| 0 <= i < r@.len() ==> (#[trigger] r@[i]).faces(selection@[i].facing()),
        applicable(syntax.forest(), text_chars(text), r),
        forall|i: int|
            0 <= i < r@.len() ==> #[trigger] r@[i] == moved_range(
                syntax.forest(),
                text_chars(text),
                selection@[i],
                Motion::FirstChild,
            ),
{
    select_node_impl(syntax, text, selection, Motion::FirstChild)
}

/// Moves every range of the selection to the sibling on the right of the
/// smallest node that spans it; from a last child, to the sibling on the
/// right of the parent. A range whose node has neither stays on the node.
pub fn select_next_sibling(syntax: &Syntax, text: RopeSlice, selection: Selection) -> (r:
    Selection)
    requires
        applicable(syntax.forest(), text_chars(text), selection),
    ensures
        r@.len() == selection@.len(),
        r.primary() == selection.primary(),
        forall|i: int| 0 <= i < r@.len() ==> (#[trigger] r@[i]).faces(selection@[i].facing()),
        applicable(syntax.forest(), text_chars(text), r),
        forall|i: int|
            0 <= i < r@.len() ==> #[trigger] r@[i] == moved_range(
                syntax.forest(),
                text_chars(text),
                selection@[i],
                Motion::NextSibling,
            ),
{
    select_node_impl(syntax, text, selection, Motion::NextSibling)
}

/// Moves every range of the selection to the sibling on the left of the
/// smallest node that spans it; from a first child, to the sibling on the
/// left of the parent. A range whose node has neither stays on the node.
pub fn select_prev_sibling(syntax: &Syntax, text: RopeSlice, selection: Selection) -> (r:
    Selection)
    requires
        applicable(syntax.forest(), text_chars(text), selection),
    ensures
        r@.len() == selection@.len(),
        r.primary() == selection.primary(),
        forall|i: int| 0 <= i < r@.len() ==> (#[trigger] r@[i]).faces(selection@[i].facing()),
        applicable(syntax.forest(), text_chars(text), r),
        forall|i: int|
            0 <= i < r@.len() ==> #[trigger] r@[i] == moved_range(
                syntax.forest(),
                text_chars(text),
                selection@[i],
                Motion::PrevSibling,
            ),
{
    select_node_impl(syntax, text, selection, Motion::PrevSibling)
}

/// Replaces every range of the selection by the span of the node that
/// `motion` leads to from the smallest node that spans the range.
pub fn select_node_impl(
    syntax: &Syntax,
    text: RopeSlice,
    selection: Selection,
    motion: Motion,
) -> (r: Selection)
    requires
        applicable(syntax.forest(), text_chars(text), selection),
    ensures
        r@.len() == selection@.len(),
        r.primary() == selection.primary(),
        forall|i: int| 0 <= i < r@.len() ==> (#[trigger] r@[i]).faces(selection@[i].facing()),
        applicable(syntax.forest(), text_chars(text), r),
        forall|i: int|
            0 <= i < r@.len() ==> #[trigger] r@[i] == moved_range(
                syntax.forest(),
                text_chars(text),
                selection@[i],
                motion,
            ),
{
    let mut cursor = syntax.walk();
    let ghost forest = syntax.forest();
    let ghost chars = text_chars(text);
    let ranges = selection.ranges();
    let mut out: Vec<Range> = Vec::new();
    let mut i: usize = 0;
    while i < ranges.len()
        invariant
            i <= ranges@.len(),
            ranges@ == selection@,
            applicable(forest, chars, selection),
            chars == text_chars(text),
            cursor.wf(),
            cursor.forest() == forest,
            out@.len() == i,
            forall|k: int|
                0 <= k < i ==> #[trigger] out@[k] == moved_range(forest, chars, ranges@[k], motion),
            forall|k: int| 0 <= k < i ==> (#[trigger] out@[k]).faces(ranges@[k].facing()),
            forall|k: int| 0 <= k < i ==> (#[trigger] out@[k]).upper() <= chars.len(),
        decreases ranges@.len() - i,
    {
        let range = ranges[i];
        proof {
            assert(selection@[i as int].upper() <= chars.len());
        }
        let from = text_char_to_byte(&text, range.from());
        let to = text_char_to_byte(&text, range.to());
        cursor.reset_to_byte_range(from, to);
        apply_motion(&mut cursor, motion);
        out.push(range_at(&cursor, &text, range.direction()));
        i = i + 1;
    }
    Selection::new(out, selection.primary_index())
}

} // verus!
