//! The durable record store: keeps the encoded vCard text as the
//! stored value per identifier.  Reading and writing the backing file
//! is the embedding process's concern: `from_pairs` rebuilds a store
//! from loaded pairs, and `get_contacts` yields the pairs to write
//! back, so a caller can guarantee a flush on every exit path.

use crate::codec::{decode, decode_spec, encode};
use crate::contact::{Contact, seed_contacts};
use crate::ident::fresh_id;
use crate::store::{
    StorageBackend, contains_id, distinct_ids, entries_of_texts, ids_distinct, ids_of,
    lemma_remove_id_absent, lemma_remove_id_at, remove_id, seed_entries,
};
use vstd::prelude::*;

verus! {

/// A store of `(identifier, vCard text)` pairs, the unit persisted on
/// disk.
pub struct Backend {
    contacts: Vec<(u64, String)>,
}

proof fn lemma_add_post_intro(
    pre: Seq<(u64, Seq<char>)>,
    vcard: Seq<char>,
    post: Seq<(u64, Seq<char>)>,
    id: u64,
)
    requires
        decode_spec(vcard) is Ok,
        !contains_id(pre, id),
        post == pre.push((id, vcard)),
    ensures
        <Backend as StorageBackend>::add_post(pre, vcard, post),
{
    assert(exists|id2: u64|
        !(#[trigger] contains_id(pre, id2)) && post == pre.push((id2, vcard))) by {
        assert(!contains_id(pre, id) && post == pre.push((id, vcard)));
    }
}

/// After a validated add, the entries hold exactly one more entry: the
/// given text as stored, under an identifier not present before;
/// everything already stored stays.
pub proof fn lemma_add_grows(
    pre: Seq<(u64, Seq<char>)>,
    vcard: Seq<char>,
    post: Seq<(u64, Seq<char>)>,
)
    requires
        <Backend as StorageBackend>::add_post(pre, vcard, post),
        decode_spec(vcard) is Ok,
    ensures
        post.len() == pre.len() + 1,
        post.drop_last() == pre,
        !contains_id(pre, post.last().0),
        post.last().1 == vcard,
{
    let id = choose|id: u64|
        !(#[trigger] contains_id(pre, id)) && post == pre.push((id, vcard));
    assert(post.drop_last() =~= pre);
}

/// Input that decoding rejects, a wrong version among the reasons,
/// leaves the entries unchanged.
pub proof fn lemma_add_rejected(
    pre: Seq<(u64, Seq<char>)>,
    vcard: Seq<char>,
    post: Seq<(u64, Seq<char>)>,
)
    requires
        <Backend as StorageBackend>::add_post(pre, vcard, post),
        decode_spec(vcard) is Err,
    ensures
        post == pre,
{
}

impl StorageBackend for Backend {
    closed spec fn entries(&self) -> Seq<(u64, Seq<char>)> {
        entries_of_texts(self.contacts@)
    }

    closed spec fn inv(&self) -> bool {
        distinct_ids(self.contacts@)
    }

    /// Validated input is stored as given, under a fresh identifier;
    /// rejected input changes nothing.
    open spec fn add_post(
        pre: Seq<(u64, Seq<char>)>,
        vcard: Seq<char>,
        post: Seq<(u64, Seq<char>)>,
    ) -> bool {
        if decode_spec(vcard) is Ok {
            exists|id: u64| !(#[trigger] contains_id(pre, id)) && post == pre.push((id, vcard))
        } else {
            post == pre
        }
    }

    /// The first entry with that identifier goes away; an absent
    /// identifier changes nothing.
    open spec fn remove_post(
        pre: Seq<(u64, Seq<char>)>,
        id: u64,
        post: Seq<(u64, Seq<char>)>,
    ) -> bool {
        post == remove_id(pre, id)
    }

    proof fn inv_implies_distinct(&self) {
        assert forall|i: int, j: int| 0 <= i < j < self.entries().len() implies (
        #[trigger] self.entries()[i]).0 != (#[trigger] self.entries()[j]).0 by {
            assert(self.entries()[i].0 == (#[trigger] self.contacts@[i]).0);
            assert(self.entries()[j].0 == (#[trigger] self.contacts@[j]).0);
        }
    }

    fn new() -> (r: Self) {
        let seeds = seed_contacts();
        let ghost m = seeds@.map_values(|p: (u64, Contact)| (p.0, p.1@));
        let mut contacts: Vec<(u64, String)> = Vec::new();
        let mut i: usize = 0;
        while i < seeds.len()
            invariant
                i <= seeds@.len(),
                m == seeds@.map_values(|p: (u64, Contact)| (p.0, p.1@)),
                contacts@.len() == i,
                forall|j: int|
                    0 <= j < i ==> (#[trigger] contacts@[j]).0 == seeds@[j].0 && contacts@[j].1@
                        == crate::codec::encode_spec(seeds@[j].1@),
            decreases seeds@.len() - i,
        {
            let text = encode(&seeds[i].1);
            contacts.push((seeds[i].0, text));
            i = i + 1;
        }
        proof {
            assert forall|j: int| 0 <= j < 3 implies (#[trigger] seeds@[j]).0 == m[j].0
                && seeds@[j].1@ == m[j].1 by {}
            assert(entries_of_texts(contacts@) =~~= seed_entries());
            assert(contacts@[0].0 == 0 && contacts@[1].0 == 1 && contacts@[2].0 == 2);
            assert(distinct_ids(contacts@));
        }
        Backend { contacts }
    }

    fn get_contacts(&self) -> (r: Vec<(u64, String)>) {
        let mut r: Vec<(u64, String)> = Vec::new();
        let mut i: usize = 0;
        while i < self.contacts.len()
            invariant
                i <= self.contacts@.len(),
                r@.len() == i,
                forall|j: int|
                    0 <= j < i ==> (#[trigger] r@[j]).0 == entries_of_texts(self.contacts@)[j].0
                        && r@[j].1@ == entries_of_texts(self.contacts@)[j].1,
            decreases self.contacts@.len() - i,
        {
            let text = self.contacts[i].1.clone();
            r.push((self.contacts[i].0, text));
            proof {
                assert(entries_of_texts(self.contacts@)[i as int] == (
                    self.contacts@[i as int].0,
                    self.contacts@[i as int].1@,
                ));
            }
            i = i + 1;
        }
        r
    }

    fn add_contact(&mut self, vcard: String) {
        let accepted = match decode(vcard.as_str()) {
            Result::Ok(_) => true,
            Result::Err(_) => false,
        };
        if accepted {
            let ids = ids_of(&self.contacts);
            let id = fresh_id(&ids);
            proof {
                if contains_id(self.contacts@, id) {
                    let i = choose|i: int|
                        0 <= i < self.contacts@.len() && (#[trigger] self.contacts@[i]).0 == id;
                    assert(ids@[i] == id);
                    assert(ids@.contains(id));
                }
            }
            let ghost pre = entries_of_texts(self.contacts@);
            let ghost prec = self.contacts@;
            let ghost text = vcard@;
            self.contacts.push((id, vcard));
            proof {
                assert(entries_of_texts(self.contacts@) =~~= pre.push((id, text)));
                if contains_id(pre, id) {
                    let i = choose|i: int| 0 <= i < pre.len() && (#[trigger] pre[i]).0 == id;
                    assert(pre[i].0 == (#[trigger] prec[i]).0);
                    assert(contains_id(prec, id));
                }
                assert(!contains_id(pre, id));
                lemma_add_post_intro(pre, text, entries_of_texts(self.contacts@), id);
                assert forall|a: int, b: int| 0 <= a < b < self.contacts@.len() implies (
                #[trigger] self.contacts@[a]).0 != (#[trigger] self.contacts@[b]).0 by {
                    if b < self.contacts@.len() - 1 {
                        assert(self.contacts@[a] == prec[a] && self.contacts@[b] == prec[b]);
                    } else {
                        assert(self.contacts@[a] == (#[trigger] prec[a]));
                        assert(self.contacts@[b].0 == id);
                    }
                }
            }
        }
    }

    fn remove_contact(&mut self, id: u64) {
        let ghost pre = entries_of_texts(self.contacts@);
        let mut i: usize = 0;
        while i < self.contacts.len()
            invariant
                i <= self.contacts@.len(),
                self.contacts@ == old(self).contacts@,
                distinct_ids(self.contacts@),
                pre == entries_of_texts(self.contacts@),
                forall|j: int| 0 <= j < i ==> (#[trigger] self.contacts@[j]).0 != id,
            decreases self.contacts@.len() - i,
        {
            if self.contacts[i].0 == id {
                let ghost pc = self.contacts@;
                self.contacts.remove(i);
                proof {
                    pc.remove_ensures(i as int);
                    assert(entries_of_texts(self.contacts@) =~~= entries_of_texts(pc).remove(
                        i as int,
                    )) by {
                        entries_of_texts(pc).remove_ensures(i as int);
                    }
                    assert(entries_of_texts(pc)[i as int].0 == pc[i as int].0 == id);
                    assert forall|j: int| 0 <= j < i implies (
                    #[trigger] entries_of_texts(pc)[j]).0 != id by {
                        assert(entries_of_texts(pc)[j].0 == (#[trigger] pc[j]).0);
                    }
                    lemma_remove_id_at(entries_of_texts(pc), id, i as int);
                    assert forall|a: int, b: int| 0 <= a < b < self.contacts@.len() implies (
                    #[trigger] self.contacts@[a]).0 != (#[trigger] self.contacts@[b]).0 by {
                        let aa = if a < i as int {
                            a
                        } else {
                            a + 1
                        };
                        let bb = if b < i as int {
                            b
                        } else {
                            b + 1
                        };
                        assert(self.contacts@[a] == pc[aa]);
                        assert(self.contacts@[b] == pc[bb]);
                        assert((#[trigger] pc[aa]).0 != (#[trigger] pc[bb]).0);
                    }
                }
                return ;
            }
            i = i + 1;
        }
        proof {
            if contains_id(pre, id) {
                let j = choose|j: int| 0 <= j < pre.len() && (#[trigger] pre[j]).0 == id;
                assert(pre[j].0 == (#[trigger] self.contacts@[j]).0);
                assert(false);
            }
            lemma_remove_id_absent(pre, id);
        }
    }
}

impl Backend {
    /// Rebuilds a store from loaded pairs; `None` when two pairs carry
    /// the same identifier.
    pub fn from_pairs(pairs: Vec<(u64, String)>) -> (r: Option<Backend>)
        ensures
            r is Some <==> distinct_ids(pairs@),
            r is Some ==> (r->0).inv() && (r->0).entries() == entries_of_texts(pairs@),
    {
        if ids_distinct(&pairs) {
            Some(Backend { contacts: pairs })
        } else {
            None
        }
    }
}

} // verus!
