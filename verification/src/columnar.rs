//! The columnar store: contacts come from a columnar on-disk table,
//! loaded fully at startup, one row per contact.  This design point is
//! read-mostly: the table is never rewritten, so `add_contact`
//! validates its input and stores nothing, and `remove_contact` removes
//! nothing.  A caller selecting this store gets listing and bootstrap
//! seeding only.

use crate::codec::decode;
use crate::contact::{Contact, seed_contacts};
use crate::store::{
    StorageBackend, distinct_ids, encode_entries, entries_of, ids_distinct, seed_entries,
};
use vstd::prelude::*;

verus! {

/// The in-memory image of the columnar table: identifier, name, mail
/// and phone columns, one row per contact.
pub struct Backend {
    rows: Vec<(u64, Contact)>,
}

impl StorageBackend for Backend {
    closed spec fn entries(&self) -> Seq<(u64, Seq<char>)> {
        entries_of(self.rows@)
    }

    closed spec fn inv(&self) -> bool {
        distinct_ids(self.rows@)
    }

    /// The input is validated but never stored: the entries do not
    /// change.
    open spec fn add_post(
        pre: Seq<(u64, Seq<char>)>,
        vcard: Seq<char>,
        post: Seq<(u64, Seq<char>)>,
    ) -> bool {
        post == pre
    }

    /// Never removes a row.
    open spec fn remove_post(
        pre: Seq<(u64, Seq<char>)>,
        id: u64,
        post: Seq<(u64, Seq<char>)>,
    ) -> bool {
        post == pre
    }

    proof fn inv_implies_distinct(&self) {
        assert forall|i: int, j: int| 0 <= i < j < self.entries().len() implies (
        #[trigger] self.entries()[i]).0 != (#[trigger] self.entries()[j]).0 by {
            assert(self.entries()[i].0 == (#[trigger] self.rows@[i]).0);
            assert(self.entries()[j].0 == (#[trigger] self.rows@[j]).0);
        }
    }

    fn new() -> (r: Self) {
        let rows = seed_contacts();
        proof {
            let m = rows@.map_values(|p: (u64, Contact)| (p.0, p.1@));
            assert forall|i: int| 0 <= i < 3 implies (#[trigger] rows@[i]).0 == m[i].0
                && rows@[i].1@ == m[i].1 by {}
            assert(entries_of(rows@) =~~= seed_entries());
            assert(rows@[0].0 == 0 && rows@[1].0 == 1 && rows@[2].0 == 2);
            assert(distinct_ids(rows@));
        }
        Backend { rows }
    }

    fn get_contacts(&self) -> (r: Vec<(u64, String)>) {
        encode_entries(&self.rows)
    }

    fn add_contact(&mut self, vcard: String) {
        let _ = decode(vcard.as_str());
    }

    fn remove_contact(&mut self, _id: u64) {
    }
}

impl Backend {
    /// Rebuilds a store from loaded table rows; `None` when two rows
    /// carry the same identifier.
    pub fn from_rows(rows: Vec<(u64, Contact)>) -> (r: Option<Backend>)
        ensures
            r is Some <==> distinct_ids(rows@),
            r is Some ==> (r->0).inv() && (r->0).entries() == entries_of(rows@),
    {
        if ids_distinct(&rows) {
            Some(Backend { rows })
        } else {
            None
        }
    }
}

} // verus!
