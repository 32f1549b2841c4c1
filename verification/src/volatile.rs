//! The volatile store: contact records live in memory for the
//! process's lifetime and are lost on exit.

use crate::codec::{decode, decode_spec, encode_spec};
use crate::contact::{Contact, seed_contacts};
use crate::ident::fresh_id;
use crate::store::{
    StorageBackend, contains_id, distinct_ids, encode_entries, entries_of, ids_of,
    lemma_remove_id_absent, lemma_remove_id_at, remove_id, seed_entries,
};
use vstd::prelude::*;

verus! {

/// An in-memory store of contact records keyed by identifier.
pub struct Backend {
    contacts: Vec<(u64, Contact)>,
}

proof fn lemma_add_post_intro(
    pre: Seq<(u64, Seq<char>)>,
    vcard: Seq<char>,
    post: Seq<(u64, Seq<char>)>,
    id: u64,
    c: crate::contact::ContactV,
)
    requires
        decode_spec(vcard) == Ok::<crate::contact::ContactV, crate::codec::DecodeError>(c),
        !contains_id(pre, id),
        post == pre.push((id, encode_spec(c))),
    ensures
        <Backend as StorageBackend>::add_post(pre, vcard, post),
{
    assert(decode_spec(vcard)->Ok_0 == c);
    assert(exists|id2: u64|
        !(#[trigger] contains_id(pre, id2)) && post == pre.push((id2, encode_spec(c)))) by {
        assert(!contains_id(pre, id) && post == pre.push((id, encode_spec(c))));
    }
}

/// After a validated add, the entries hold exactly one more entry: the
/// record just decoded, encoded, under an identifier not present
/// before; everything already stored stays.
pub proof fn lemma_add_grows(
    pre: Seq<(u64, Seq<char>)>,
    vcard: Seq<char>,
    post: Seq<(u64, Seq<char>)>,
)
    requires
        <Backend as StorageBackend>::add_post(pre, vcard, post),
        decode_spec(vcard) is Ok,
    ensures
        post.len() == pre.len() + 1,
        post.drop_last() == pre,
        !contains_id(pre, post.last().0),
        post.last().1 == encode_spec(decode_spec(vcard)->Ok_0),
{
    let id = choose|id: u64|
        !(#[trigger] contains_id(pre, id)) && post == pre.push(
            (id, encode_spec(decode_spec(vcard)->Ok_0)),
        );
    assert(post.drop_last() =~= pre);
}

/// Input that decoding rejects, a wrong version among the reasons,
/// leaves the entries unchanged.
pub proof fn lemma_add_rejected(
    pre: Seq<(u64, Seq<char>)>,
    vcard: Seq<char>,
    post: Seq<(u64, Seq<char>)>,
)
    requires
        <Backend as StorageBackend>::add_post(pre, vcard, post),
        decode_spec(vcard) is Err,
    ensures
        post == pre,
{
}

impl StorageBackend for Backend {
    closed spec fn entries(&self) -> Seq<(u64, Seq<char>)> {
        entries_of(self.contacts@)
    }

    closed spec fn inv(&self) -> bool {
        distinct_ids(self.contacts@)
    }

    /// Validated input is stored, encoded, under a fresh identifier;
    /// rejected input changes nothing.
    open spec fn add_post(
        pre: Seq<(u64, Seq<char>)>,
        vcard: Seq<char>,
        post: Seq<(u64, Seq<char>)>,
    ) -> bool {
        if decode_spec(vcard) is Ok {
            exists|id: u64|
                !(#[trigger] contains_id(pre, id)) && post == pre.push(
                    (id, encode_spec(decode_spec(vcard)->Ok_0)),
                )
        } else {
            post == pre
        }
    }

    /// The first entry with that identifier goes away; an absent
    /// identifier changes nothing.
    open spec fn remove_post(
        pre: Seq<(u64, Seq<char>)>,
        id: u64,
        post: Seq<(u64, Seq<char>)>,
    ) -> bool {
        post == remove_id(pre, id)
    }

    proof fn inv_implies_distinct(&self) {
        assert forall|i: int, j: int| 0 <= i < j < self.entries().len() implies (
        #[trigger] self.entries()[i]).0 != (#[trigger] self.entries()[j]).0 by {
            assert(self.entries()[i].0 == (#[trigger] self.contacts@[i]).0);
            assert(self.entries()[j].0 == (#[trigger] self.contacts@[j]).0);
        }
    }

    fn new() -> (r: Self) {
        let contacts = seed_contacts();
        proof {
            let m = contacts@.map_values(|p: (u64, Contact)| (p.0, p.1@));
            assert forall|i: int| 0 <= i < 3 implies (#[trigger] contacts@[i]).0 == m[i].0
                && contacts@[i].1@ == m[i].1 by {}
            assert(entries_of(contacts@) =~~= seed_entries());
            assert(contacts@[0].0 == 0 && contacts@[1].0 == 1 && contacts@[2].0 == 2);
            assert(distinct_ids(contacts@));
        }
        Backend { contacts }
    }

    fn get_contacts(&self) -> (r: Vec<(u64, String)>) {
        encode_entries(&self.contacts)
    }

    fn add_contact(&mut self, vcard: String) {
        match decode(vcard.as_str()) {
            Result::Err(_) => {},
            Result::Ok(c) => {
                let ids = ids_of(&self.contacts);
                let id = fresh_id(&ids);
                proof {
                    if contains_id(self.contacts@, id) {
                        let i = choose|i: int|
                            0 <= i < self.contacts@.len() && (#[trigger] self.contacts@[i]).0
                                == id;
                        assert(ids@[i] == id);
                        assert(ids@.contains(id));
                    }
                }
                let ghost pre = entries_of(self.contacts@);
                let ghost prec = self.contacts@;
                let ghost cv = c@;
                self.contacts.push((id, c));
                proof {
                    assert(entries_of(self.contacts@) =~~= pre.push((id, encode_spec(cv))));
                    if contains_id(pre, id) {
                        let i = choose|i: int|
                            0 <= i < pre.len() && (#[trigger] pre[i]).0 == id;
                        assert(pre[i].0 == (#[trigger] prec[i]).0);
                        assert(contains_id(prec, id));
                    }
                    assert(!contains_id(pre, id));
                    assert(decode_spec(vcard@) == Ok::<
                        crate::contact::ContactV,
                        crate::codec::DecodeError,
                    >(cv));
                    assert(entries_of(self.contacts@) == pre.push((id, encode_spec(cv))));
                    lemma_add_post_intro(pre, vcard@, entries_of(self.contacts@), id, cv);
                    assert forall|a: int, b: int| 0 <= a < b < self.contacts@.len() implies (
                    #[trigger] self.contacts@[a]).0 != (#[trigger] self.contacts@[b]).0 by {
                        if b < self.contacts@.len() - 1 {
                            assert(self.contacts@[a] == prec[a] && self.contacts@[b] == prec[b]);
                        } else {
                            assert(self.contacts@[a] == (#[trigger] prec[a]));
                            assert(self.contacts@[b].0 == id);
                        }
                    }
                }
            },
        }
    }

    fn remove_contact(&mut self, id: u64) {
        let ghost pre = entries_of(self.contacts@);
        let mut i: usize = 0;
        while i < self.contacts.len()
            invariant
                i <= self.contacts@.len(),
                self.contacts@ == old(self).contacts@,
                distinct_ids(self.contacts@),
                pre == entries_of(self.contacts@),
                forall|j: int| 0 <= j < i ==> (#[trigger] self.contacts@[j]).0 != id,
            decreases self.contacts@.len() - i,
        {
            if self.contacts[i].0 == id {
                let ghost pc = self.contacts@;
                self.contacts.remove(i);
                proof {
                    pc.remove_ensures(i as int);
                    assert(entries_of(self.contacts@) =~~= entries_of(pc).remove(i as int)) by {
                        entries_of(pc).remove_ensures(i as int);
                    }
                    assert(entries_of(pc)[i as int].0 == pc[i as int].0 == id);
                    assert forall|j: int| 0 <= j < i implies (#[trigger] entries_of(pc)[j]).0
                        != id by {
                        assert(entries_of(pc)[j].0 == (#[trigger] pc[j]).0);
                    }
                    lemma_remove_id_at(entries_of(pc), id, i as int);
                    assert forall|a: int, b: int| 0 <= a < b < self.contacts@.len() implies (
                    #[trigger] self.contacts@[a]).0 != (#[trigger] self.contacts@[b]).0 by {
                        let aa = if a < i as int {
                            a
                        } else {
                            a + 1
                        };
                        let bb = if b < i as int {
                            b
                        } else {
                            b + 1
                        };
                        assert(self.contacts@[a] == pc[aa]);
                        assert(self.contacts@[b] == pc[bb]);
                        assert((#[trigger] pc[aa]).0 != (#[trigger] pc[bb]).0);
                    }
                }
                return ;
            }
            i = i + 1;
        }
        proof {
            if contains_id(pre, id) {
                let j = choose|j: int| 0 <= j < pre.len() && (#[trigger] pre[j]).0 == id;
                assert(pre[j].0 == (#[trigger] self.contacts@[j]).0);
                assert(false);
            }
            lemma_remove_id_absent(pre, id);
        }
    }
}

} // verus!
