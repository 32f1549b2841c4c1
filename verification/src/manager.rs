//! The process-facing facade: the three operations the RPC boundary
//! exposes, forwarded to the active backend.  The durable record store
//! is the active backend of this build.

use crate::durable;
use crate::store::StorageBackend;
use vstd::prelude::*;

verus! {

/// Owns the active backend and forwards the remote operations to it.
pub struct ContactsManager {
    pub backend: durable::Backend,
}

impl ContactsManager {
    /// Every live contact, encoded as vCard 4.0 text.
    pub fn get_contacts(&mut self) -> (r: Vec<(u64, String)>)
        requires
            old(self).backend.inv(),
        ensures
            final(self).backend == old(self).backend,
            r@.len() == old(self).backend.entries().len(),
            forall|i: int|
                0 <= i < r@.len() ==> (#[trigger] r@[i]).0 == old(self).backend.entries()[i].0
                    && r@[i].1@ == old(self).backend.entries()[i].1,
    {
        self.backend.get_contacts()
    }

    /// Decodes and stores one contact; rejected input changes nothing.
    pub fn add_contact(&mut self, vcard: String)
        requires
            old(self).backend.inv(),
        ensures
            final(self).backend.inv(),
            <durable::Backend as StorageBackend>::add_post(
                old(self).backend.entries(),
                vcard@,
                final(self).backend.entries(),
            ),
    {
        self.backend.add_contact(vcard);
    }

    /// Removes the contact with that identifier, if present.
    pub fn remove_contact(&mut self, id: u64)
        requires
            old(self).backend.inv(),
        ensures
            final(self).backend.inv(),
            <durable::Backend as StorageBackend>::remove_post(
                old(self).backend.entries(),
                id,
                final(self).backend.entries(),
            ),
    {
        self.backend.remove_contact(id);
    }
}

} // verus!
