//! The contact record model: the in-memory shape of one address-book
//! entry, its mathematical view, and the fixed seed data that a freshly
//! constructed backend starts from.

use vstd::prelude::*;
use vstd::string::*;

verus! {

/// One e-mail address of a contact.
#[derive(Clone, Debug, Eq, PartialEq)]
pub struct Mail {
    pub address: String,
}

/// One telephone number of a contact.
#[derive(Clone, Debug, Eq, PartialEq)]
pub struct Phone {
    pub number: String,
}

/// A contact record: a display name plus any number of mail addresses
/// and phone numbers, in order of appearance.
#[derive(Clone, Debug, Eq, PartialEq)]
pub struct Contact {
    pub name: String,
    pub mails: Vec<Mail>,
    pub phones: Vec<Phone>,
}

/// The mathematical value of a contact: the name and the two value
/// sequences, each value as a sequence of characters.
#[verifier::ext_equal]
pub ghost struct ContactV {
    pub name: Seq<char>,
    pub mails: Seq<Seq<char>>,
    pub phones: Seq<Seq<char>>,
}

impl View for Mail {
    type V = Seq<char>;

    open spec fn view(&self) -> Seq<char> {
        self.address@
    }
}

impl View for Phone {
    type V = Seq<char>;

    open spec fn view(&self) -> Seq<char> {
        self.number@
    }
}

impl View for Contact {
    type V = ContactV;

    open spec fn view(&self) -> ContactV {
        ContactV {
            name: self.name@,
            mails: self.mails@.map_values(|m: Mail| m@),
            phones: self.phones@.map_values(|p: Phone| p@),
        }
    }
}

/// The first seed contact.
pub open spec fn seed_leopold() -> ContactV {
    ContactV {
        name: "Leopold"@,
        mails: seq!["leopold@gmail.com"@, "leopold@outlook.com"@],
        phones: Seq::<Seq<char>>::empty(),
    }
}

/// The second seed contact.
pub open spec fn seed_frank() -> ContactV {
    ContactV {
        name: "Frank"@,
        mails: seq!["frank@gmail.com"@],
        phones: seq!["+33 0 12 34 56 78"@],
    }
}

/// The third seed contact.
pub open spec fn seed_bob() -> ContactV {
    ContactV {
        name: "Bob"@,
        mails: Seq::<Seq<char>>::empty(),
        phones: seq!["+31 0 12 34 56 78"@, "+32 0 12 34 56 78"@],
    }
}

/// The fixed example records that every backend seeds a fresh store
/// with: identifiers 0, 1 and 2, identical content across backends.
pub open spec fn seed_records() -> Seq<(u64, ContactV)> {
    seq![(0u64, seed_leopold()), (1u64, seed_frank()), (2u64, seed_bob())]
}

/// Builds the seed records as executable values.
pub fn seed_contacts() -> (r: Vec<(u64, Contact)>)
    ensures
        r@.map_values(|p: (u64, Contact)| (p.0, p.1@)) =~~= seed_records(),
{
    let mut leopold_mails: Vec<Mail> = Vec::new();
    leopold_mails.push(Mail { address: String::from_str("leopold@gmail.com") });
    leopold_mails.push(Mail { address: String::from_str("leopold@outlook.com") });
    let leopold = Contact {
        name: String::from_str("Leopold"),
        mails: leopold_mails,
        phones: Vec::new(),
    };

    let mut frank_mails: Vec<Mail> = Vec::new();
    frank_mails.push(Mail { address: String::from_str("frank@gmail.com") });
    let mut frank_phones: Vec<Phone> = Vec::new();
    frank_phones.push(Phone { number: String::from_str("+33 0 12 34 56 78") });
    let frank = Contact {
        name: String::from_str("Frank"),
        mails: frank_mails,
        phones: frank_phones,
    };

    let mut bob_phones: Vec<Phone> = Vec::new();
    bob_phones.push(Phone { number: String::from_str("+31 0 12 34 56 78") });
    bob_phones.push(Phone { number: String::from_str("+32 0 12 34 56 78") });
    let bob = Contact {
        name: String::from_str("Bob"),
        mails: Vec::new(),
        phones: bob_phones,
    };

    let mut r: Vec<(u64, Contact)> = Vec::new();
    r.push((0, leopold));
    r.push((1, frank));
    r.push((2, bob));
    proof {
        assert(r@.map_values(|p: (u64, Contact)| (p.0, p.1@)).len() == 3);
        assert(r@.map_values(|p: (u64, Contact)| (p.0, p.1@))[0].1 =~~= seed_leopold());
        assert(r@.map_values(|p: (u64, Contact)| (p.0, p.1@))[1].1 =~~= seed_frank());
        assert(r@.map_values(|p: (u64, Contact)| (p.0, p.1@))[2].1 =~~= seed_bob());
    }
    r
}

} // verus!
