//! The index from byte ranges to the layers parsed from them.

use crate::layer::{injected_at, same_layer, Forest, Injection, Layer, LayerId};
use std::collections::HashMap;
use vstd::prelude::*;

verus! {

/// The number under which a region is kept in the index: its start in the
/// upper half and its end in the lower half of 128 bits.
pub open spec fn region_key(start: usize, end: usize) -> int {
    start * 0x1_0000_0000_0000_0000 + end
}

/// The number under which the region `start..end` is kept.
fn key_of(start: usize, end: usize) -> (key: u128)
    ensures
        key == region_key(start, end),
{
    (start as u128) * 0x1_0000_0000_0000_0000u128 + (end as u128)
}

/// The regions of a document that are parsed by a layer of their own: a map
/// from regions to layers. Where a region is entered twice, the later entry
/// counts.
pub struct InjectionIndex {
    regions: HashMap<u128, LayerId>,
    entries: Ghost<Seq<Injection>>,
}

impl View for InjectionIndex {
    type V = Seq<Injection>;

    /// The entries in the order in which they were made.
    closed spec fn view(&self) -> Seq<Injection> {
        self.entries@
    }
}

impl InjectionIndex {
    /// The map holds for every region the layer of the last entry for it.
    pub closed spec fn wf(&self) -> bool {
        forall|start: usize, end: usize|
            (#[trigger] injected_at(self.entries@, start as int, end as int)) == (
            if self.regions@.contains_key(region_key(start, end) as u128) {
                Some(self.regions@[region_key(start, end) as u128])
            } else {
                None
            })
    }

    /// An index without entries.
    pub fn new() -> (index: InjectionIndex)
        ensures
            index.wf(),
            index@ == Seq::<Injection>::empty(),
    {
        InjectionIndex { regions: HashMap::new(), entries: Ghost(Seq::empty()) }
    }

    /// Records that `layer` was parsed from `start..end`.
    pub fn insert(&mut self, start: usize, end: usize, layer: LayerId)
        requires
            old(self).wf(),
        ensures
            final(self).wf(),
            final(self)@ == old(self)@.push(Injection { start, end, layer }),
    {
        let key = key_of(start, end);
        let ghost before = self.entries@;
        let ghost entry = Injection { start, end, layer };
        self.regions.insert(key, layer);
        self.entries = Ghost(before.push(entry));
        proof {
            assert(before.push(entry).drop_last() == before);
            assert(before.push(entry).last() == entry);
            assert forall|s: usize, e: usize|
                (#[trigger] injected_at(self.entries@, s as int, e as int)) == (
                if self.regions@.contains_key(region_key(s, e) as u128) {
                    Some(self.regions@[region_key(s, e) as u128])
                } else {
                    None
                }) by {
                if s == start && e == end {
                } else {
                    assert(region_key(s, e) != region_key(start, end));
                    assert(injected_at(self.entries@, s as int, e as int) == injected_at(
                        before,
                        s as int,
                        e as int,
                    ));
                }
            }
        }
    }

    /// The layer that was parsed from exactly `start..end`, if there is one.
    pub fn get(&self, start: usize, end: usize) -> (r: Option<LayerId>)
        requires
            self.wf(),
        ensures
            r == injected_at(self@, start as int, end as int),
    {
        let key = key_of(start, end);
        match self.regions.get(&key) {
            Some(layer) => Some(*layer),
            None => None,
        }
    }

    /// The index of a forest: one entry for each layer but the root layer,
    /// in the order of `listed`, which holds the forest's layers in the
    /// forest's order.
    pub(crate) fn build(
        listed: &Vec<(LayerId, &Layer)>,
        root: LayerId,
        Ghost(forest): Ghost<Forest>,
    ) -> (index: InjectionIndex)
        requires
            forest.root == root,
            listed@.len() == forest.order.len(),
            forall|i: int|
                0 <= i < listed@.len() ==> (#[trigger] listed@[i]).0 == forest.order[i]
                    && *listed@[i].1 == forest.layers[forest.order[i]],
        ensures
            index.wf(),
            index@ == forest.injections(),
    {
        let mut index = InjectionIndex::new();
        let mut i: usize = 0;
        while i < listed.len()
            invariant
                i <= listed@.len(),
                forest.root == root,
                listed@.len() == forest.order.len(),
                forall|i: int|
                    0 <= i < listed@.len() ==> (#[trigger] listed@[i]).0 == forest.order[i]
                        && *listed@[i].1 == forest.layers[forest.order[i]],
                index.wf(),
                index@ == forest.injections_upto(i as int),
            decreases listed@.len() - i,
        {
            let id = listed[i].0;
            let layer = listed[i].1;
            if !same_layer(id, root) {
                index.insert(layer.start, layer.end, id);
            }
            i = i + 1;
        }
        index
    }
}

} // verus!
