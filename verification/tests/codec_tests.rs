use contact_store::codec::Contact;
use contact_store::codec::StoreError;

fn contact(name: &str, phone: &str, email: &str) -> Contact {
    Contact {
        name: name.to_string(),
        phone_number: phone.to_string(),
        email: email.to_string(),
    }
}

#[test]
fn serialize_exact() {
    let c = contact("Ann", "555", "a@x.com");
    assert_eq!(c.serialize(), "Ann,555,a@x.com".to_string());
}

#[test]
fn serialize_empty_fields() {
    let c = contact("", "", "");
    assert_eq!(c.serialize(), ",,".to_string());
}

#[test]
fn roundtrip_decode_encode() {
    let c = contact("Ann", "555", "a@x.com");
    let line = c.serialize();
    let d = Contact::deserialize(&line).unwrap();
    assert_eq!(d.name, "Ann".to_string());
    assert_eq!(d.phone_number, "555".to_string());
    assert_eq!(d.email, "a@x.com".to_string());
}

#[test]
fn roundtrip_empty_fields() {
    let c = contact("", "", "");
    let d = Contact::deserialize(&c.serialize()).unwrap();
    assert_eq!(d.name, "".to_string());
    assert_eq!(d.phone_number, "".to_string());
    assert_eq!(d.email, "".to_string());
}

#[test]
fn deserialize_basic() {
    let d = Contact::deserialize("Bob,777,b@x.com").unwrap();
    assert_eq!(d.name, "Bob".to_string());
    assert_eq!(d.phone_number, "777".to_string());
    assert_eq!(d.email, "b@x.com".to_string());
}

#[test]
fn deserialize_extra_parts_discarded() {
    let d = Contact::deserialize("a,b,c,d,e").unwrap();
    assert_eq!(d.name, "a".to_string());
    assert_eq!(d.phone_number, "b".to_string());
    assert_eq!(d.email, "c".to_string());
}

fn expect_malformed(line: &str) {
    match Contact::deserialize(line) {
        Ok(_) => panic!("expected a malformed-record error"),
        Err(e) => assert_eq!(e, StoreError::MalformedRecord),
    }
}

#[test]
fn deserialize_too_few_parts() {
    expect_malformed("a,b");
    expect_malformed("plain text");
    expect_malformed("");
}

#[test]
fn new_lowercases_email_only() {
    let c = Contact::new("Ann".to_string(), "555".to_string(), "A@X.COM".to_string());
    assert_eq!(c.name, "Ann".to_string());
    assert_eq!(c.phone_number, "555".to_string());
    assert_eq!(c.email, "a@x.com".to_string());
}
