//! The target model: buildable units identified by package and name, with
//! declared forward dependencies and free-form labels, all carried as
//! interned handles.

use vstd::prelude::*;

use crate::string::InternString;

verus! {

/// The identity of a target: its package and name. A value type decoupled
/// from any target collection, so a result set built of keys can outlive the
/// collection it was computed from.
#[derive(Debug, Clone, Copy, PartialEq, Eq, Hash, Structural)]
pub struct TargetLabelKey {
    pub package: InternString,
    pub name: InternString,
}

/// A buildable unit: its identity, the identities of the targets it requires
/// (forward dependency edges), and its labels.
pub struct Target {
    pub package: InternString,
    pub name: InternString,
    pub deps: Vec<TargetLabelKey>,
    pub labels: Vec<InternString>,
}

impl Target {
    /// The identity key of this target.
    pub open spec fn spec_label_key(self) -> TargetLabelKey {
        TargetLabelKey { package: self.package, name: self.name }
    }

    /// The identity key of this target, as a detached value.
    pub fn label_key(&self) -> (k: TargetLabelKey)
        ensures
            k == self.spec_label_key(),
    {
        TargetLabelKey { package: self.package, name: self.name }
    }
}

/// An enumerable, stable-order collection of targets.
pub struct Targets {
    entries: Vec<Target>,
}

impl View for Targets {
    type V = Seq<Target>;

    closed spec fn view(&self) -> Seq<Target> {
        self.entries@
    }
}

impl Targets {
    /// Wraps a list of targets, keeping its order.
    pub fn new(entries: Vec<Target>) -> (r: Targets)
        ensures
            r@ == entries@,
    {
        Targets { entries }
    }

    /// How many targets the collection holds; usable to pre-size the working
    /// structures of a propagation run.
    pub fn len_targets_upperbound(&self) -> (n: usize)
        ensures
            n == self@.len(),
    {
        self.entries.len()
    }

    /// The target at position `i`.
    pub fn get(&self, i: usize) -> (t: &Target)
        requires
            i < self@.len(),
        ensures
            *t == self@[i as int],
    {
        &self.entries[i]
    }
}

} // verus!
