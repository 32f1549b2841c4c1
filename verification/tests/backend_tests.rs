use contacts::codec::decode;
use contacts::contact::Contact;
use contacts::manager::ContactsManager;
use contacts::store::StorageBackend;
use contacts::{columnar, durable, volatile};

const ADA: &str = "BEGIN:VCARD\r\nVERSION:4.0\r\nFN:Ada\r\nEMAIL:ada@example.com\r\nEND:VCARD";
const OLD_VERSION: &str = "BEGIN:VCARD\r\nVERSION:3.0\r\nFN:Ada\r\nEND:VCARD";

const SEED_LEOPOLD: &str = "BEGIN:VCARD\r\nVERSION:4.0\r\nFN:Leopold\r\nEMAIL:leopold@gmail.com\r\nEMAIL:leopold@outlook.com\r\nEND:VCARD\r\n";
const SEED_FRANK: &str =
    "BEGIN:VCARD\r\nVERSION:4.0\r\nFN:Frank\r\nEMAIL:frank@gmail.com\r\nTEL:+33 0 12 34 56 78\r\nEND:VCARD\r\n";
const SEED_BOB: &str =
    "BEGIN:VCARD\r\nVERSION:4.0\r\nFN:Bob\r\nTEL:+31 0 12 34 56 78\r\nTEL:+32 0 12 34 56 78\r\nEND:VCARD\r\n";

fn sorted(mut v: Vec<(u64, String)>) -> Vec<(u64, String)> {
    v.sort();
    v
}

fn check_seed(list: Vec<(u64, String)>) {
    let v = sorted(list);
    assert_eq!(
        v,
        vec![
            (0, SEED_LEOPOLD.to_string()),
            (1, SEED_FRANK.to_string()),
            (2, SEED_BOB.to_string()),
        ]
    );
}

#[test]
fn volatile_seed_three() {
    check_seed(volatile::Backend::new().get_contacts());
}

#[test]
fn durable_seed_three() {
    check_seed(durable::Backend::new().get_contacts());
}

#[test]
fn columnar_seed_three() {
    check_seed(columnar::Backend::new().get_contacts());
}

#[test]
fn volatile_add_lists_one_more() {
    let mut b = volatile::Backend::new();
    let before = b.get_contacts();
    b.add_contact(ADA.to_string());
    let after = b.get_contacts();
    assert_eq!(after.len(), before.len() + 1);
    let new: Vec<&(u64, String)> =
        after.iter().filter(|(id, _)| !before.iter().any(|(i, _)| i == id)).collect();
    assert_eq!(new.len(), 1);
    let c = decode(&new[0].1).unwrap();
    assert_eq!(c.name, "Ada");
    let mails: Vec<String> = c.mails.into_iter().map(|m| m.address).collect();
    assert_eq!(mails, vec!["ada@example.com".to_string()]);
}

#[test]
fn volatile_add_twice_distinct_ids() {
    let mut b = volatile::Backend::new();
    b.add_contact(ADA.to_string());
    b.add_contact(ADA.to_string());
    let after = b.get_contacts();
    assert_eq!(after.len(), 5);
    let added: Vec<&(u64, String)> =
        after.iter().filter(|(_, text)| decode(text).unwrap().name == "Ada").collect();
    assert_eq!(added.len(), 2);
    assert_ne!(added[0].0, added[1].0);
    assert_eq!(added[0].1, added[1].1);
}

#[test]
fn volatile_add_wrong_version_unchanged() {
    let mut b = volatile::Backend::new();
    let before = sorted(b.get_contacts());
    b.add_contact(OLD_VERSION.to_string());
    assert_eq!(sorted(b.get_contacts()), before);
}

#[test]
fn durable_add_wrong_version_unchanged() {
    let mut b = durable::Backend::new();
    let before = sorted(b.get_contacts());
    b.add_contact(OLD_VERSION.to_string());
    assert_eq!(sorted(b.get_contacts()), before);
}

#[test]
fn columnar_add_wrong_version_unchanged() {
    let mut b = columnar::Backend::new();
    let before = sorted(b.get_contacts());
    b.add_contact(OLD_VERSION.to_string());
    assert_eq!(sorted(b.get_contacts()), before);
}

#[test]
fn volatile_remove_present() {
    let mut b = volatile::Backend::new();
    let before = b.get_contacts();
    let victim = before[0].0;
    b.remove_contact(victim);
    let after = b.get_contacts();
    assert_eq!(after.len(), before.len() - 1);
    assert!(!after.iter().any(|(id, _)| *id == victim));
    for entry in &after {
        assert!(before.contains(entry));
    }
}

#[test]
fn volatile_remove_absent_unchanged() {
    let mut b = volatile::Backend::new();
    let before = sorted(b.get_contacts());
    b.remove_contact(42);
    assert_eq!(sorted(b.get_contacts()), before);
}

#[test]
fn durable_remove_present() {
    let mut b = durable::Backend::new();
    let before = b.get_contacts();
    b.remove_contact(1);
    let after = b.get_contacts();
    assert_eq!(after.len(), 2);
    assert!(!after.iter().any(|(id, _)| *id == 1));
}

#[test]
fn durable_remove_absent_unchanged() {
    let mut b = durable::Backend::new();
    let before = sorted(b.get_contacts());
    b.remove_contact(7777);
    assert_eq!(sorted(b.get_contacts()), before);
}

#[test]
fn durable_add_stores_text_as_given() {
    let mut b = durable::Backend::new();
    b.add_contact(ADA.to_string());
    let after = b.get_contacts();
    assert!(after.iter().any(|(_, text)| text == ADA));
}

#[test]
fn durable_from_pairs_keeps_pairs() {
    let pairs = vec![(9, ADA.to_string()), (4, SEED_BOB.to_string())];
    let b = durable::Backend::from_pairs(pairs.clone()).unwrap();
    assert_eq!(sorted(b.get_contacts()), sorted(pairs));
}

#[test]
fn durable_from_pairs_rejects_duplicate_ids() {
    let pairs = vec![(9, ADA.to_string()), (9, SEED_BOB.to_string())];
    assert!(durable::Backend::from_pairs(pairs).is_none());
}

#[test]
fn columnar_add_is_rejected() {
    let mut b = columnar::Backend::new();
    let before = sorted(b.get_contacts());
    b.add_contact(ADA.to_string());
    assert_eq!(sorted(b.get_contacts()), before);
}

#[test]
fn columnar_remove_is_rejected() {
    let mut b = columnar::Backend::new();
    let before = sorted(b.get_contacts());
    b.remove_contact(0);
    assert_eq!(sorted(b.get_contacts()), before);
}

#[test]
fn columnar_from_rows_rejects_duplicate_ids() {
    let row = Contact { name: "Ada".to_string(), mails: vec![], phones: vec![] };
    let rows = vec![(1, row.clone()), (1, row)];
    assert!(columnar::Backend::from_rows(rows).is_none());
}

#[test]
fn manager_forwards_operations() {
    let mut m = ContactsManager { backend: durable::Backend::new() };
    check_seed(m.get_contacts());
    m.add_contact(ADA.to_string());
    assert_eq!(m.get_contacts().len(), 4);
    m.remove_contact(0);
    let after = m.get_contacts();
    assert_eq!(after.len(), 3);
    assert!(!after.iter().any(|(id, _)| *id == 0));
    m.add_contact(OLD_VERSION.to_string());
    assert_eq!(m.get_contacts().len(), 3);
}
