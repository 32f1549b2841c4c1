use contacts::codec::{DecodeError, decode, encode};
use contacts::contact::{Contact, Mail, Phone};

fn mk_contact(name: &str, mails: &[&str], phones: &[&str]) -> Contact {
    Contact {
        name: name.to_string(),
        mails: mails.iter().map(|m| Mail { address: m.to_string() }).collect(),
        phones: phones.iter().map(|p| Phone { number: p.to_string() }).collect(),
    }
}

#[test]
fn decode_simple() {
    let c = decode("BEGIN:VCARD\r\nVERSION:4.0\r\nFN:Ada\r\nEMAIL:ada@example.com\r\nEND:VCARD")
        .unwrap();
    assert_eq!(c.name, "Ada");
    assert_eq!(c.mails, vec![Mail { address: "ada@example.com".to_string() }]);
    assert!(c.phones.is_empty());
}

#[test]
fn decode_collects_in_order() {
    let c = decode(
        "BEGIN:VCARD\r\nVERSION:4.0\r\nFN:Bob\r\nTEL:+1\r\nEMAIL:a@x\r\nTEL:+2\r\nEMAIL:b@x\r\nREV:20250121T173505Z\r\nEND:VCARD",
    )
    .unwrap();
    assert_eq!(c.name, "Bob");
    let mails: Vec<String> = c.mails.into_iter().map(|m| m.address).collect();
    let phones: Vec<String> = c.phones.into_iter().map(|p| p.number).collect();
    assert_eq!(mails, vec!["a@x".to_string(), "b@x".to_string()]);
    assert_eq!(phones, vec!["+1".to_string(), "+2".to_string()]);
}

#[test]
fn decode_wrong_version() {
    let r = decode("BEGIN:VCARD\r\nVERSION:3.0\r\nFN:Ada\r\nEND:VCARD");
    assert_eq!(r, Err(DecodeError::BadVersion));
}

#[test]
fn decode_missing_version() {
    let r = decode("BEGIN:VCARD\r\nFN:Ada\r\nEND:VCARD");
    assert_eq!(r, Err(DecodeError::BadVersion));
}

#[test]
fn decode_missing_name() {
    let r = decode("BEGIN:VCARD\r\nVERSION:4.0\r\nEMAIL:a@x\r\nEND:VCARD");
    assert_eq!(r, Err(DecodeError::MissingName));
}

#[test]
fn decode_empty_name() {
    let r = decode("BEGIN:VCARD\r\nVERSION:4.0\r\nFN:\r\nEND:VCARD");
    assert_eq!(r, Err(DecodeError::MissingName));
}

#[test]
fn decode_line_without_colon() {
    let r = decode("BEGIN:VCARD\r\nVERSION:4.0\r\nFN:Ada\r\nJUNK\r\nEND:VCARD");
    assert_eq!(r, Err(DecodeError::Malformed));
}

#[test]
fn decode_missing_end() {
    let r = decode("BEGIN:VCARD\r\nVERSION:4.0\r\nFN:Ada\r\n");
    assert_eq!(r, Err(DecodeError::Malformed));
}

#[test]
fn decode_missing_begin() {
    let r = decode("VERSION:4.0\r\nFN:Ada\r\nEND:VCARD");
    assert_eq!(r, Err(DecodeError::Malformed));
}

#[test]
fn decode_empty_input() {
    let r = decode("");
    assert_eq!(r, Err(DecodeError::Malformed));
}

#[test]
fn decode_only_first_object() {
    let c = decode(
        "BEGIN:VCARD\r\nVERSION:4.0\r\nFN:Ada\r\nEND:VCARD\r\nBEGIN:VCARD\r\nVERSION:4.0\r\nFN:Bob\r\nEND:VCARD",
    )
    .unwrap();
    assert_eq!(c.name, "Ada");
}

#[test]
fn decode_property_parameters() {
    let c = decode("BEGIN:VCARD\r\nVERSION:4.0\r\nFN:Ada\r\nEMAIL;TYPE=work:a@x\r\nEND:VCARD")
        .unwrap();
    assert_eq!(c.mails, vec![Mail { address: "a@x".to_string() }]);
}

#[test]
fn decode_bare_line_feeds() {
    let c = decode("BEGIN:VCARD\nVERSION:4.0\nFN:Ada\nTEL:+1\nEND:VCARD\n").unwrap();
    assert_eq!(c.name, "Ada");
    assert_eq!(c.phones, vec![Phone { number: "+1".to_string() }]);
}

#[test]
fn decode_value_with_colon() {
    let c = decode("BEGIN:VCARD\r\nVERSION:4.0\r\nFN:Ada: The First\r\nEND:VCARD").unwrap();
    assert_eq!(c.name, "Ada: The First");
}

#[test]
fn encode_exact_text() {
    let c = mk_contact("Ada", &["a@x", "b@x", "a@x"], &["+1"]);
    let text = encode(&c);
    assert_eq!(
        text,
        "BEGIN:VCARD\r\nVERSION:4.0\r\nFN:Ada\r\nEMAIL:a@x\r\nEMAIL:b@x\r\nTEL:+1\r\nEND:VCARD\r\n"
    );
}

#[test]
fn encode_no_value_lines_when_empty() {
    let c = mk_contact("Ada", &[], &[]);
    let text = encode(&c);
    assert_eq!(text, "BEGIN:VCARD\r\nVERSION:4.0\r\nFN:Ada\r\nEND:VCARD\r\n");
}

#[test]
fn encode_deduplicates_phones() {
    let c = mk_contact("Ada", &[], &["+1", "+2", "+1", "+1"]);
    let text = encode(&c);
    assert_eq!(
        text,
        "BEGIN:VCARD\r\nVERSION:4.0\r\nFN:Ada\r\nTEL:+1\r\nTEL:+2\r\nEND:VCARD\r\n"
    );
}

#[test]
fn round_trip_preserves_name_and_sets() {
    let input = "BEGIN:VCARD\r\nVERSION:4.0\r\nFN:Ada\r\nEMAIL:b@x\r\nEMAIL:a@x\r\nEMAIL:b@x\r\nTEL:+1\r\nEND:VCARD";
    let c = decode(input).unwrap();
    let text = encode(&c);
    let c2 = decode(&text).unwrap();
    assert_eq!(c2.name, c.name);
    let set = |v: &Vec<Mail>| {
        let mut s: Vec<String> = v.iter().map(|m| m.address.clone()).collect();
        s.sort();
        s.dedup();
        s
    };
    assert_eq!(set(&c2.mails), set(&c.mails));
    let pset = |v: &Vec<Phone>| {
        let mut s: Vec<String> = v.iter().map(|p| p.number.clone()).collect();
        s.sort();
        s.dedup();
        s
    };
    assert_eq!(pset(&c2.phones), pset(&c.phones));
}
