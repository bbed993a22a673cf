//! Semantic owners that the realized-tree diff has already recursed into.

use vstd::prelude::*;

use crate::annotated::{SemanticKind, SlotStep};

verus! {

/// Stable semantic identity for pairing authored owners before text
/// similarity: the kind, the slot labels and the position among owners of
/// that shape.
#[derive(Debug)]
pub struct SemanticOwnerKey {
    pub kind: SemanticKind,
    pub slot_labels: Vec<SlotStep>,
    pub ordinal: usize,
}

/// An owner key as plain values.
pub type OwnerKeyView = (SemanticKind, Seq<SlotStep>, usize);

impl View for SemanticOwnerKey {
    type V = OwnerKeyView;

    open spec fn view(&self) -> OwnerKeyView {
        (self.kind, self.slot_labels@, self.ordinal)
    }
}

impl SemanticOwnerKey {
    /// A copy of the key.
    pub fn copy_key(&self) -> (copy: SemanticOwnerKey)
        ensures
            copy@ == self@,
    {
        let mut labels: Vec<SlotStep> = Vec::new();
        let mut i: usize = 0;
        while i < self.slot_labels.len()
            invariant
                i <= self.slot_labels@.len(),
                labels@ == self.slot_labels@.subrange(0, i as int),
            decreases self.slot_labels@.len() - i,
        {
            labels.push(self.slot_labels[i]);
            i += 1;
        }
        assert(self.slot_labels@.subrange(0, i as int) =~= self.slot_labels@);
        SemanticOwnerKey { kind: self.kind, slot_labels: labels, ordinal: self.ordinal }
    }

    /// Whether two keys are equal.
    pub fn same_key(&self, other: &SemanticOwnerKey) -> (same: bool)
        ensures
            same == (self@ == other@),
    {
        if self.kind != other.kind || self.ordinal != other.ordinal {
            return false;
        }
        if self.slot_labels.len() != other.slot_labels.len() {
            return false;
        }
        let mut i: usize = 0;
        while i < self.slot_labels.len()
            invariant
                self.slot_labels@.len() == other.slot_labels@.len(),
                i <= self.slot_labels@.len(),
                forall|k: int| 0 <= k < i ==> self.slot_labels@[k] == other.slot_labels@[k],
            decreases self.slot_labels@.len() - i,
        {
            if self.slot_labels[i] != other.slot_labels[i] {
                return false;
            }
            i += 1;
        }
        assert(self.slot_labels@ =~= other.slot_labels@);
        true
    }
}

/// The set of owner keys already recursed into.
pub struct RecursedOwners {
    keys: Vec<SemanticOwnerKey>,
}

impl View for RecursedOwners {
    type V = Set<OwnerKeyView>;

    closed spec fn view(&self) -> Set<OwnerKeyView> {
        Set::new(|v: OwnerKeyView| exists|i: int| 0 <= i < self.keys@.len() && #[trigger] self.keys@[i]@ == v)
    }
}

impl RecursedOwners {
    /// No owner recursed into yet.
    pub fn new() -> (owners: RecursedOwners)
        ensures
            owners@ == Set::<OwnerKeyView>::empty(),
    {
        let owners = RecursedOwners { keys: Vec::new() };
        assert(owners@ =~= Set::<OwnerKeyView>::empty());
        owners
    }

    /// Whether the key was recorded.
    pub fn contains(&self, key: &SemanticOwnerKey) -> (b: bool)
        ensures
            b == self@.contains(key@),
    {
        let mut i: usize = 0;
        while i < self.keys.len()
            invariant
                i <= self.keys@.len(),
                forall|j: int| 0 <= j < i ==> self.keys@[j]@ != key@,
            decreases self.keys@.len() - i,
        {
            if self.keys[i].same_key(key) {
                return true;
            }
            i += 1;
        }
        false
    }

    /// Records the key.
    pub fn insert(&mut self, key: &SemanticOwnerKey)
        ensures
            final(self)@ == old(self)@.insert(key@),
    {
        if !self.contains(key) {
            let ghost before = self.keys@;
            self.keys.push(key.copy_key());
            assert forall|v: OwnerKeyView| #[trigger] final(self)@.contains(v) <==> old(self)@.insert(key@).contains(v) by {
                if old(self)@.insert(key@).contains(v) {
                    if v == key@ {
                        assert(self.keys@[before.len() as int]@ == v);
                    } else {
                        let i = choose|i: int| 0 <= i < before.len() && #[trigger] before[i]@ == v;
                        assert(self.keys@[i]@ == v);
                    }
                }
            }
            assert(final(self)@ =~= old(self)@.insert(key@));
        } else {
            assert(old(self)@.insert(key@) =~= old(self)@);
        }
    }
}

/// Whether the owner of `key` was already recursed into; no key never was.
pub fn owner_already_recursed(recursed: &RecursedOwners, key: &Option<SemanticOwnerKey>) -> (b: bool)
    ensures
        b == match key {
            Some(k) => recursed@.contains(k@),
            None => false,
        },
{
    match key {
        Some(k) => recursed.contains(k),
        None => false,
    }
}

/// Records that the owner of `key` was recursed into.
pub fn mark_recursed_owner(recursed: &mut RecursedOwners, key: &Option<SemanticOwnerKey>)
    ensures
        final(recursed)@ == match key {
            Some(k) => old(recursed)@.insert(k@),
            None => old(recursed)@,
        },
{
    if let Some(k) = key {
        recursed.insert(k);
    }
}

} // verus!
