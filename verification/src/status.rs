//! The two-value status lattice attached to every tree node.

use vstd::prelude::*;

verus! {

/// Whether a path is owned by the tool (`Managed`) or merely present as
/// scaffolding for a managed descendant (`Unmanaged`).
#[derive(Debug, Clone, Copy, PartialEq, Eq, Structural)]
pub enum EtcFileStatus {
    Managed,
    Unmanaged,
}

impl EtcFileStatus {
    /// Logical OR over "is this node still required".
    pub open spec fn merge_spec(self, other: Self) -> Self {
        if self is Unmanaged && other is Unmanaged {
            EtcFileStatus::Unmanaged
        } else {
            EtcFileStatus::Managed
        }
    }

    /// Combines the statuses two generations record for the same node.
    pub fn merge(&self, other: &Self) -> (r: Self)
        ensures
            r == self.merge_spec(*other),
    {
        match (self, other) {
            (EtcFileStatus::Unmanaged, EtcFileStatus::Unmanaged) => EtcFileStatus::Unmanaged,
            _ => EtcFileStatus::Managed,
        }
    }
}

/// The merge operation is commutative.
pub proof fn lemma_merge_commutative(a: EtcFileStatus, b: EtcFileStatus)
    ensures
        a.merge_spec(b) == b.merge_spec(a),
{
}

/// The merge operation is associative.
pub proof fn lemma_merge_associative(a: EtcFileStatus, b: EtcFileStatus, c: EtcFileStatus)
    ensures
        a.merge_spec(b).merge_spec(c) == a.merge_spec(b.merge_spec(c)),
{
}

/// The merge operation is idempotent.
pub proof fn lemma_merge_idempotent(a: EtcFileStatus)
    ensures
        a.merge_spec(a) == a,
{
}

} // verus!
