use core::cmp::Ordering;
use vstd::prelude::*;

verus! {

/// Strength of a capability attached to an unforgeable reference.
#[derive(PartialEq, Eq, Structural, Clone, Copy, Debug, Hash)]
pub enum AccessRights {
    Eqv,
    Read,
    Write,
    Add,
    ReadAdd,
    ReadWrite,
    AddWrite,
}

/// `a` is strictly weaker than `b` in the lattice.
///
/// `Eqv` is the bottom; each atomic right sits below the pairs that contain
/// it, and `ReadWrite` also subsumes `Add` (a read followed by a write can
/// simulate an addition). Nothing else is related.
pub open spec fn rights_lt(a: AccessRights, b: AccessRights) -> bool {
    match (a, b) {
        (AccessRights::Eqv, AccessRights::Eqv) => false,
        (AccessRights::Eqv, _) => true,
        (AccessRights::Read, AccessRights::ReadAdd) => true,
        (AccessRights::Read, AccessRights::ReadWrite) => true,
        (AccessRights::Add, AccessRights::ReadAdd) => true,
        (AccessRights::Add, AccessRights::AddWrite) => true,
        (AccessRights::Add, AccessRights::ReadWrite) => true,
        (AccessRights::Write, AccessRights::AddWrite) => true,
        (AccessRights::Write, AccessRights::ReadWrite) => true,
        _ => false,
    }
}

/// The partial order of the lattice; `None` marks an incomparable pair.
pub open spec fn rights_cmp(a: AccessRights, b: AccessRights) -> Option<Ordering> {
    if a == b {
        Some(Ordering::Equal)
    } else if rights_lt(a, b) {
        Some(Ordering::Less)
    } else if rights_lt(b, a) {
        Some(Ordering::Greater)
    } else {
        None
    }
}

/// `a` holds at least the capability `b`.
pub open spec fn rights_ge(a: AccessRights, b: AccessRights) -> bool {
    a == b || rights_lt(b, a)
}

impl PartialOrd for AccessRights {
    fn partial_cmp(&self, other: &AccessRights) -> (r: Option<Ordering>)
        ensures
            r == rights_cmp(*self, *other),
    {
        match (*self, *other) {
            (AccessRights::Eqv, AccessRights::Eqv) => Some(Ordering::Equal),
            (AccessRights::Eqv, _) => Some(Ordering::Less),
            (_, AccessRights::Eqv) => Some(Ordering::Greater),
            (AccessRights::Read, AccessRights::Write) => None,
            (AccessRights::Write, AccessRights::Read) => None,
            (AccessRights::Read, AccessRights::Add) => None,
            (AccessRights::Add, AccessRights::Read) => None,
            (AccessRights::Read, AccessRights::ReadAdd) => Some(Ordering::Less),
            (AccessRights::ReadAdd, AccessRights::Read) => Some(Ordering::Greater),
            (AccessRights::Read, AccessRights::ReadWrite) => Some(Ordering::Less),
            (AccessRights::ReadWrite, AccessRights::Read) => Some(Ordering::Greater),
            (AccessRights::Write, AccessRights::Add) => None,
            (AccessRights::Add, AccessRights::Write) => None,
            (AccessRights::Read, AccessRights::AddWrite) => None,
            (AccessRights::Add, AccessRights::AddWrite) => Some(Ordering::Less),
            (AccessRights::Write, AccessRights::AddWrite) => Some(Ordering::Less),
            (AccessRights::ReadAdd, AccessRights::AddWrite) => None,
            (AccessRights::ReadWrite, AccessRights::AddWrite) => None,
            (AccessRights::AddWrite, AccessRights::Read) => None,
            (AccessRights::AddWrite, AccessRights::Add) => Some(Ordering::Greater),
            (AccessRights::AddWrite, AccessRights::Write) => Some(Ordering::Greater),
            (AccessRights::AddWrite, AccessRights::ReadAdd) => None,
            (AccessRights::AddWrite, AccessRights::ReadWrite) => None,
            (AccessRights::Write, AccessRights::ReadWrite) => Some(Ordering::Less),
            (AccessRights::ReadWrite, AccessRights::Write) => Some(Ordering::Greater),
            (AccessRights::Add, AccessRights::ReadAdd) => Some(Ordering::Less),
            (AccessRights::ReadAdd, AccessRights::Add) => Some(Ordering::Greater),
            // A read followed by a write can simulate an addition.
            (AccessRights::Add, AccessRights::ReadWrite) => Some(Ordering::Less),
            (AccessRights::ReadWrite, AccessRights::Add) => Some(Ordering::Greater),
            // Read + Add would amount to a write only if every addition had an
            // inverse; there is no additive way to remove an entry, so these
            // stay apart.
            (AccessRights::Write, AccessRights::ReadAdd) => None,
            (AccessRights::ReadAdd, AccessRights::Write) => None,
            (AccessRights::ReadAdd, AccessRights::ReadWrite) => None,
            (AccessRights::ReadWrite, AccessRights::ReadAdd) => None,
            (a, b) => {
                if a == b {
                    Some(Ordering::Equal)
                } else {
                    None
                }
            },
        }
    }
}

impl vstd::std_specs::cmp::PartialOrdSpecImpl for AccessRights {
    open spec fn obeys_partial_cmp_spec() -> bool {
        true
    }

    open spec fn partial_cmp_spec(&self, other: &AccessRights) -> Option<Ordering> {
        rights_cmp(*self, *other)
    }
}

impl AccessRights {
    /// Whether these rights are sufficient for an operation that needs
    /// `required`: they are equal to it or above it in the lattice.
    pub fn includes(&self, required: AccessRights) -> (r: bool)
        ensures
            r == rights_ge(*self, required),
    {
        match self.partial_cmp(&required) {
            Some(Ordering::Equal) => true,
            Some(Ordering::Greater) => true,
            _ => false,
        }
    }
}

/// The lattice is a partial order seen from either side: `compare(a, b)` is
/// `Greater` exactly when `compare(b, a)` is `Less`, incomparability is
/// symmetric, and every value compares `Equal` to itself and only to itself.
pub proof fn lemma_rights_cmp_antisymmetric(a: AccessRights, b: AccessRights)
    ensures
        rights_cmp(a, a) == Some(Ordering::Equal),
        rights_cmp(a, b) == Some(Ordering::Greater) <==> rights_cmp(b, a) == Some(Ordering::Less),
        rights_cmp(a, b) == Some(Ordering::Less) <==> rights_cmp(b, a) == Some(Ordering::Greater),
        rights_cmp(a, b) == Some(Ordering::Equal) <==> a == b,
        rights_cmp(a, b) is None <==> rights_cmp(b, a) is None,
{
}

/// The order is transitive, so capability sufficiency composes.
pub proof fn lemma_rights_lt_transitive(a: AccessRights, b: AccessRights, c: AccessRights)
    requires
        rights_lt(a, b),
        rights_lt(b, c),
    ensures
        rights_lt(a, c),
{
}

} // verus!
