//! Selections: ranges of characters with a direction.

use vstd::prelude::*;

verus! {

/// Which end of a range is its head.
#[derive(Clone, Copy, Debug, PartialEq, Eq, Structural)]
pub enum Direction {
    /// The head is at or after the anchor.
    Forward,
    /// The head is before the anchor.
    Backward,
}

/// A range of characters. The anchor is the end that stays in place when
/// the range is extended, the head is the end that moves.
#[derive(Clone, Copy, Debug, PartialEq, Eq, Structural)]
pub struct Range {
    /// Character offset of the fixed end.
    pub anchor: usize,
    /// Character offset of the moving end.
    pub head: usize,
}

impl Range {
    /// The range from `anchor` to `head`.
    pub fn new(anchor: usize, head: usize) -> (r: Range)
        ensures
            r == (Range { anchor, head }),
    {
        Range { anchor, head }
    }

    /// The lower end of the range.
    pub open spec fn lower(self) -> usize {
        if self.anchor <= self.head {
            self.anchor
        } else {
            self.head
        }
    }

    /// The upper end of the range.
    pub open spec fn upper(self) -> usize {
        if self.anchor <= self.head {
            self.head
        } else {
            self.anchor
        }
    }

    /// Which end of the range is its head.
    pub open spec fn facing(self) -> Direction {
        if self.head < self.anchor {
            Direction::Backward
        } else {
            Direction::Forward
        }
    }

    /// Whether the head is at the end that `direction` names: at or before
    /// the anchor for backward, at or after it for forward.
    pub open spec fn faces(self, direction: Direction) -> bool {
        match direction {
            Direction::Backward => self.head <= self.anchor,
            Direction::Forward => self.anchor <= self.head,
        }
    }

    /// The range with its ends exchanged.
    pub open spec fn flipped(self) -> Range {
        Range { anchor: self.head, head: self.anchor }
    }

    /// The range over the same characters that faces in `direction`.
    pub open spec fn facing_in(self, direction: Direction) -> Range {
        if self.facing() == direction {
            self
        } else {
            self.flipped()
        }
    }

    /// The range over `from..to` that faces in `direction`; where `from` and
    /// `to` are one offset the range is empty and faces forward.
    pub open spec fn over(from: usize, to: usize, direction: Direction) -> Range {
        (Range { anchor: to, head: from }).facing_in(direction)
    }

    /// The lower end of the range.
    pub fn from(&self) -> (r: usize)
        ensures
            r == self.lower(),
    {
        if self.anchor <= self.head {
            self.anchor
        } else {
            self.head
        }
    }

    /// The upper end of the range.
    pub fn to(&self) -> (r: usize)
        ensures
            r == self.upper(),
    {
        if self.anchor <= self.head {
            self.head
        } else {
            self.anchor
        }
    }

    /// Which end of the range is its head.
    pub fn direction(&self) -> (d: Direction)
        ensures
            d == self.facing(),
    {
        if self.head < self.anchor {
            Direction::Backward
        } else {
            Direction::Forward
        }
    }

    /// The range with its ends exchanged.
    pub fn flip(&self) -> (r: Range)
        ensures
            r == self.flipped(),
    {
        Range { anchor: self.head, head: self.anchor }
    }

    /// The range over the same characters that faces in `direction`.
    pub fn with_direction(self, direction: Direction) -> (r: Range)
        ensures
            r == self.facing_in(direction),
            r.lower() == self.lower(),
            r.upper() == self.upper(),
    {
        if self.direction() == direction {
            self
        } else {
            self.flip()
        }
    }
}

/// One or more ranges, of which one is the primary.
#[derive(Clone, Debug)]
pub struct Selection {
    ranges: Vec<Range>,
    primary_index: usize,
}

impl View for Selection {
    type V = Seq<Range>;

    closed spec fn view(&self) -> Seq<Range> {
        self.ranges@
    }
}

impl Selection {
    /// Position of the primary range among the ranges.
    pub closed spec fn primary(&self) -> usize {
        self.primary_index
    }

    /// Every end of every range is at or before `limit`.
    pub open spec fn within(&self, limit: int) -> bool {
        forall|i: int| 0 <= i < self@.len() ==> (#[trigger] self@[i]).upper() <= limit
    }

    /// The selection of `ranges` with the primary range at `primary_index`.
    pub fn new(ranges: Vec<Range>, primary_index: usize) -> (s: Selection)
        ensures
            s@ == ranges@,
            s.primary() == primary_index,
    {
        Selection { ranges, primary_index }
    }

    /// The selection of the single range from `anchor` to `head`.
    pub fn single(anchor: usize, head: usize) -> (s: Selection)
        ensures
            s@ == seq![Range { anchor, head }],
            s.primary() == 0,
    {
        let mut ranges: Vec<Range> = Vec::new();
        ranges.push(Range { anchor, head });
        Selection { ranges, primary_index: 0 }
    }

    /// The ranges, in order.
    pub fn ranges(&self) -> (r: &Vec<Range>)
        ensures
            r@ == self@,
    {
        &self.ranges
    }

    /// Number of ranges.
    pub fn len(&self) -> (n: usize)
        ensures
            n == self@.len(),
    {
        self.ranges.len()
    }

    /// Position of the primary range among the ranges.
    pub fn primary_index(&self) -> (i: usize)
        ensures
            i == self.primary(),
    {
        self.primary_index
    }

    /// Whether every end of every range is at or before `limit`.
    pub fn fits(&self, limit: usize) -> (ok: bool)
        ensures
            ok == self.within(limit as int),
    {
        let mut i: usize = 0;
        while i < self.ranges.len()
            invariant
                i <= self@.len(),
                forall|k: int| 0 <= k < i ==> (#[trigger] self@[k]).upper() <= limit,
            decreases self@.len() - i,
        {
            if self.ranges[i].to() > limit {
                return false;
            }
            i = i + 1;
        }
        true
    }
}

} // verus!
