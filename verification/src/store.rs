//! The storage backend contract: the capability set `{new, list, add,
//! remove}` that every concrete store satisfies, together with the
//! spec-level vocabulary shared by the stores.
//!
//! A backend's observable state is its sequence of entries, each an
//! identifier beside the vCard text of one contact.  Identifiers are
//! pairwise distinct at every observable point.

use crate::codec::encode_spec;
use crate::contact::{Contact, ContactV, seed_records};
use vstd::prelude::*;

verus! {

/// Whether an entry with identifier `id` is present.
pub open spec fn contains_id<T>(es: Seq<(u64, T)>, id: u64) -> bool {
    exists|i: int| 0 <= i < es.len() && (#[trigger] es[i]).0 == id
}

/// All identifiers of `es` are pairwise distinct.
pub open spec fn distinct_ids<T>(es: Seq<(u64, T)>) -> bool {
    forall|i: int, j: int|
        0 <= i < j < es.len() ==> (#[trigger] es[i]).0 != (#[trigger] es[j]).0
}

/// `es` with the first entry carrying `id` removed; `es` itself when
/// `id` is absent.
pub open spec fn remove_id<T>(es: Seq<(u64, T)>, id: u64) -> Seq<(u64, T)>
    decreases es.len(),
{
    if es.len() == 0 {
        es
    } else if es[0].0 == id {
        es.skip(1)
    } else {
        seq![es[0]] + remove_id(es.skip(1), id)
    }
}

/// Removing an absent identifier changes nothing.
pub proof fn lemma_remove_id_absent<T>(es: Seq<(u64, T)>, id: u64)
    requires
        !contains_id(es, id),
    ensures
        remove_id(es, id) == es,
    decreases es.len(),
{
    if es.len() == 0 {
        assert(remove_id(es, id) =~= es);
    } else {
        assert(es[0].0 != id);
        assert(!contains_id(es.skip(1), id)) by {
            if contains_id(es.skip(1), id) {
                let i = choose|i: int|
                    0 <= i < es.skip(1).len() && (#[trigger] es.skip(1)[i]).0 == id;
                assert(es[i + 1].0 == id);
            }
        }
        lemma_remove_id_absent(es.skip(1), id);
        assert(remove_id(es, id) =~= es);
    }
}

/// Removing the identifier found first at index `i` removes exactly
/// that entry.
pub proof fn lemma_remove_id_at<T>(es: Seq<(u64, T)>, id: u64, i: int)
    requires
        0 <= i < es.len(),
        es[i].0 == id,
        forall|j: int| 0 <= j < i ==> (#[trigger] es[j]).0 != id,
    ensures
        remove_id(es, id) == es.remove(i),
    decreases es.len(),
{
    if i == 0 {
        assert(remove_id(es, id) =~= es.remove(0));
    } else {
        assert forall|j: int| 0 <= j < i - 1 implies (#[trigger] es.skip(1)[j]).0 != id by {
            assert(es.skip(1)[j] == es[j + 1]);
        }
        assert(es.skip(1)[i - 1] == es[i]);
        lemma_remove_id_at(es.skip(1), id, i - 1);
        assert(remove_id(es, id) =~= es.remove(i));
    }
}

/// Removing a present identifier removes exactly the entry carrying
/// it: one fewer entry, and the rest stay in order.
pub proof fn lemma_remove_id_present<T>(es: Seq<(u64, T)>, id: u64)
    requires
        contains_id(es, id),
    ensures
        remove_id(es, id).len() == es.len() - 1,
        exists|i: int|
            0 <= i < es.len() && (#[trigger] es[i]).0 == id && remove_id(es, id) == es.remove(i),
    decreases es.len(),
{
    if es[0].0 == id {
        assert(remove_id(es, id) =~= es.remove(0));
        assert(0 <= 0 < es.len() && es[0].0 == id && remove_id(es, id) == es.remove(0));
    } else {
        assert(contains_id(es.skip(1), id)) by {
            let i = choose|i: int| 0 <= i < es.len() && (#[trigger] es[i]).0 == id;
            assert(i > 0);
            assert(es.skip(1)[i - 1] == es[i]);
        }
        lemma_remove_id_present(es.skip(1), id);
        let i = choose|i: int|
            0 <= i < es.skip(1).len() && (#[trigger] es.skip(1)[i]).0 == id && remove_id(
                es.skip(1),
                id,
            ) == es.skip(1).remove(i);
        assert(es[i + 1] == es.skip(1)[i]);
        assert(remove_id(es, id) =~= es.remove(i + 1));
        assert(0 <= i + 1 < es.len() && es[i + 1].0 == id && remove_id(es, id) == es.remove(
            i + 1,
        ));
    }
}

/// A fresh backend holds exactly the three seed entries.
pub proof fn lemma_seed_entries_len()
    ensures
        seed_entries().len() == 3,
{
}

/// The encoded entries of a list of contact records.
pub open spec fn entries_of(s: Seq<(u64, Contact)>) -> Seq<(u64, Seq<char>)> {
    s.map_values(|p: (u64, Contact)| (p.0, encode_spec(p.1@)))
}

/// The entries of a list of stored vCard texts.
pub open spec fn entries_of_texts(s: Seq<(u64, String)>) -> Seq<(u64, Seq<char>)> {
    s.map_values(|p: (u64, String)| (p.0, p.1@))
}

/// The entries of a freshly seeded backend: the seed records, encoded.
pub open spec fn seed_entries() -> Seq<(u64, Seq<char>)> {
    seed_records().map_values(|p: (u64, ContactV)| (p.0, encode_spec(p.1)))
}

/// The identifiers of `v`, in order.
pub fn ids_of<T>(v: &Vec<(u64, T)>) -> (r: Vec<u64>)
    ensures
        r@.len() == v@.len(),
        forall|i: int| 0 <= i < v@.len() ==> r@[i] == (#[trigger] v@[i]).0,
{
    let mut r: Vec<u64> = Vec::new();
    let mut i: usize = 0;
    while i < v.len()
        invariant
            i <= v@.len(),
            r@.len() == i,
            forall|j: int| 0 <= j < i ==> r@[j] == (#[trigger] v@[j]).0,
        decreases v@.len() - i,
    {
        r.push(v[i].0);
        i = i + 1;
    }
    r
}

/// Encodes each record of `v` beside its identifier.
pub fn encode_entries(v: &Vec<(u64, Contact)>) -> (r: Vec<(u64, String)>)
    ensures
        r@.len() == entries_of(v@).len(),
        forall|i: int|
            0 <= i < r@.len() ==> (#[trigger] r@[i]).0 == entries_of(v@)[i].0 && r@[i].1@
                == entries_of(v@)[i].1,
{
    let mut r: Vec<(u64, String)> = Vec::new();
    let mut i: usize = 0;
    while i < v.len()
        invariant
            i <= v@.len(),
            r@.len() == i,
            forall|j: int|
                0 <= j < i ==> (#[trigger] r@[j]).0 == entries_of(v@)[j].0 && r@[j].1@
                    == entries_of(v@)[j].1,
        decreases v@.len() - i,
    {
        let text = crate::codec::encode(&v[i].1);
        r.push((v[i].0, text));
        proof {
            assert(entries_of(v@)[i as int] == (v@[i as int].0, encode_spec(v@[i as int].1@)));
        }
        i = i + 1;
    }
    r
}

/// Whether the identifiers of `v` are pairwise distinct.
pub fn ids_distinct<T>(v: &Vec<(u64, T)>) -> (r: bool)
    ensures
        r == distinct_ids(v@),
{
    let mut i: usize = 0;
    while i < v.len()
        invariant
            i <= v@.len(),
            forall|a: int, b: int|
                0 <= a < b < v@.len() && a < i ==> (#[trigger] v@[a]).0 != (#[trigger] v@[b]).0,
        decreases v@.len() - i,
    {
        let mut j: usize = i + 1;
        while j < v.len()
            invariant
                i < j <= v@.len(),
                i < v@.len(),
                forall|b: int| i < b < j ==> (#[trigger] v@[b]).0 != v@[i as int].0,
            decreases v@.len() - j,
        {
            if v[i].0 == v[j].0 {
                proof {
                    assert(!distinct_ids(v@));
                }
                return false;
            }
            j = j + 1;
        }
        i = i + 1;
    }
    true
}

/// The uniform contract of a concrete store.  `entries` is the
/// observable state; `add_post` and `remove_post` say, per store, how
/// one call changes it.
pub trait StorageBackend: Sized {
    /// The observable entries: identifier and encoded vCard text, in
    /// the order `get_contacts` returns them.
    spec fn entries(&self) -> Seq<(u64, Seq<char>)>;

    /// The store's internal invariant; identifiers are always
    /// pairwise distinct.
    spec fn inv(&self) -> bool;

    /// How one `add_contact` call relates the entries before and after.
    spec fn add_post(
        pre: Seq<(u64, Seq<char>)>,
        vcard: Seq<char>,
        post: Seq<(u64, Seq<char>)>,
    ) -> bool;

    /// How one `remove_contact` call relates the entries before and
    /// after.
    spec fn remove_post(
        pre: Seq<(u64, Seq<char>)>,
        id: u64,
        post: Seq<(u64, Seq<char>)>,
    ) -> bool;

    proof fn inv_implies_distinct(&self)
        requires
            self.inv(),
        ensures
            distinct_ids(self.entries()),
    ;

    /// Constructs a fresh store holding exactly the seed records.
    fn new() -> (r: Self)
        ensures
            r.inv(),
            r.entries() == seed_entries(),
    ;

    /// Every live contact, encoded as vCard 4.0 text.
    fn get_contacts(&self) -> (r: Vec<(u64, String)>)
        requires
            self.inv(),
        ensures
            r@.len() == self.entries().len(),
            forall|i: int|
                0 <= i < r@.len() ==> (#[trigger] r@[i]).0 == self.entries()[i].0 && r@[i].1@
                    == self.entries()[i].1,
    ;

    /// Decodes the first vCard object of `vcard` and stores the record
    /// under a fresh identifier; rejected input leaves the entries
    /// unchanged.
    fn add_contact(&mut self, vcard: String)
        requires
            old(self).inv(),
        ensures
            final(self).inv(),
            Self::add_post(old(self).entries(), vcard@, final(self).entries()),
    ;

    /// Removes the entry with identifier `id` if present; removing an
    /// absent identifier is a no-op.
    fn remove_contact(&mut self, id: u64)
        requires
            old(self).inv(),
        ensures
            final(self).inv(),
            Self::remove_post(old(self).entries(), id, final(self).entries()),
    ;
}

} // verus!
