use vstd::prelude::*;

use crate::fixed::{MAX_ITEM_ATTRS, VALUE_BOUND};
use crate::context::MAX_SEQ;

verus! {

/// Largest number of instances a training dataset admits; keeps every feature
/// count comfortably inside `u64`.
pub const MAX_INSTANCES: usize = 1_000_000;

/// One observed feature at a sequence position: an interned attribute id and
/// its non-negative fixed-point value.
#[derive(Clone, Copy, PartialEq, Eq, Structural, Debug)]
pub struct AttrVal {
    pub id: usize,
    pub value: i64,
}

/// The observations at one sequence position.
#[derive(Clone, Debug)]
pub struct Item {
    pub attrs: Vec<AttrVal>,
}

/// A named attribute with its fixed-point value, as handed in by callers
/// before interning.
#[derive(Clone, Debug)]
pub struct Attribute {
    pub name: Vec<u8>,
    pub value: i64,
}

/// A training instance: an ordered sequence of items with a parallel sequence
/// of gold label ids.
#[derive(Clone, Debug)]
pub struct Instance {
    pub items: Vec<Item>,
    pub gold: Vec<usize>,
}

/// An ordered collection of training instances.
#[derive(Clone, Debug)]
pub struct Dataset {
    pub instances: Vec<Instance>,
}

impl Item {
    /// A well-formed item: not too many observations, every attribute id
    /// interned, every value non-negative and bounded.
    pub open spec fn wf(&self, num_attrs: int) -> bool {
        &&& self.attrs@.len() <= MAX_ITEM_ATTRS
        &&& forall|k: int|
            0 <= k < self.attrs@.len() ==> (#[trigger] self.attrs@[k]).id < num_attrs
                && 0 <= self.attrs@[k].value <= VALUE_BOUND
    }
}

/// All items of a sequence are well formed and the sequence is not too long.
pub open spec fn wf_items(items: Seq<Item>, num_attrs: int) -> bool {
    &&& items.len() <= MAX_SEQ
    &&& forall|t: int| 0 <= t < items.len() ==> (#[trigger] items[t]).wf(num_attrs)
}

impl Instance {
    /// A well-formed training instance: well-formed items and a gold label id
    /// per position.
    pub open spec fn wf(&self, num_attrs: int, num_labels: int) -> bool {
        &&& wf_items(self.items@, num_attrs)
        &&& self.gold@.len() == self.items@.len()
        &&& forall|t: int| 0 <= t < self.gold@.len() ==> (#[trigger] self.gold@[t]) < num_labels
    }
}

impl Dataset {
    /// A well-formed dataset: a bounded number of well-formed instances.
    pub open spec fn wf(&self, num_attrs: int, num_labels: int) -> bool {
        &&& self.instances@.len() <= MAX_INSTANCES
        &&& forall|i: int|
            0 <= i < self.instances@.len() ==> (#[trigger] self.instances@[i]).wf(
                num_attrs,
                num_labels,
            )
    }

    pub fn new() -> (d: Dataset)
        ensures
            d.instances@.len() == 0,
    {
        Dataset { instances: Vec::new() }
    }

    /// Number of instances.
    pub fn len(&self) -> (n: usize)
        ensures
            n == self.instances@.len(),
    {
        self.instances.len()
    }

    /// Appends a training instance.
    pub fn push(&mut self, inst: Instance)
        requires
            old(self).instances@.len() < MAX_INSTANCES,
        ensures
            final(self).instances@ == old(self).instances@.push(inst),
    {
        self.instances.push(inst);
    }
}

} // verus!
