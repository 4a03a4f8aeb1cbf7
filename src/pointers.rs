use crate::access_rights::AccessRights;
use core::marker::PhantomData;
use vstd::prelude::*;

verus! {

/// A typed handle to unforgeable state, as handed to the virtual machine.
#[derive(Debug)]
pub struct UPointer<T>(pub [u8; 32], pub AccessRights, pub PhantomData<T>);

impl<T> UPointer<T> {
    pub fn new(id: [u8; 32], rights: AccessRights) -> (r: UPointer<T>)
        ensures
            r.0 == id,
            r.1 == rights,
    {
        UPointer(id, rights, PhantomData)
    }
}

/// A handle to callable contract code: stored under a content hash or
/// behind an unforgeable reference.
#[derive(Debug)]
pub enum ContractPointer {
    Hash([u8; 32]),
    URef(UPointer<Vec<u8>>),
}

} // verus!
