use contact_store::codec::Contact;
use contact_store::codec::StoreError;
use contact_store::store::ContactStore;
use contact_store::store::add_contact;
use contact_store::store::check_for_duplicates;
use contact_store::store::contact_lines;
use contact_store::store::delete_contact;
use contact_store::store::edit_contact;
use contact_store::store::find_contact_index;
use contact_store::store::load_contacts;
use contact_store::store::search_contact;
use contact_store::store::sort_contacts;

fn contact(name: &str, phone: &str, email: &str) -> Contact {
    Contact {
        name: name.to_string(),
        phone_number: phone.to_string(),
        email: email.to_string(),
    }
}

fn lines_of(store: &ContactStore) -> Vec<String> {
    store.to_lines()
}

#[test]
fn dedup_reports_duplicate_and_keeps_size() {
    let mut store = ContactStore::new();
    assert!(store.add(contact("Ann", "555", "a@x.com")).is_ok());
    assert_eq!(store.len(), 1);
    match store.add(contact("Ann", "555", "a@x.com")) {
        Ok(_) => panic!("expected a duplicate-contact error"),
        Err(e) => assert_eq!(e, StoreError::DuplicateContact),
    }
    assert_eq!(store.len(), 1);
}

#[test]
fn same_name_different_phone_is_not_duplicate() {
    let mut store = ContactStore::new();
    assert!(store.add(contact("Ann", "555", "a@x.com")).is_ok());
    assert!(store.add(contact("Ann", "556", "a@x.com")).is_ok());
    assert_eq!(store.len(), 2);
}

#[test]
fn add_keeps_sorted_by_lowercased_name() {
    let mut store = ContactStore::new();
    assert!(store.add(contact("Bob", "1", "b@x.com")).is_ok());
    assert!(store.add(contact("ann", "2", "a@x.com")).is_ok());
    assert!(store.add(contact("Zoe", "3", "z@x.com")).is_ok());
    // Byte order would put "Bob" and "Zoe" before "ann"; lower-cased order
    // puts "ann" first.
    let lines = lines_of(&store);
    assert_eq!(lines, vec![
        "ann,2,a@x.com".to_string(),
        "Bob,1,b@x.com".to_string(),
        "Zoe,3,z@x.com".to_string(),
    ]);
}

#[test]
fn search_is_case_insensitive() {
    let mut store = ContactStore::new();
    assert!(store.add(contact("Bob", "777", "b@x.com")).is_ok());
    match store.search_by_name("BOB") {
        Some(c) => {
            assert_eq!(c.name, "Bob".to_string());
            assert_eq!(c.phone_number, "777".to_string());
        },
        None => panic!("expected to find Bob"),
    }
}

#[test]
fn search_absent_after_last_element() {
    let mut store = ContactStore::new();
    assert!(store.add(contact("Ann", "555", "a@x.com")).is_ok());
    // A query sorting after the only element must terminate as not-found.
    assert!(store.search_by_name("zzz").is_none());
    assert!(store.search_by_name("Aaa").is_none());
}

#[test]
fn search_empty_store() {
    let store = ContactStore::new();
    assert!(store.search_by_name("Ann").is_none());
}

#[test]
fn search_finds_every_present_name() {
    let mut store = ContactStore::new();
    assert!(store.add(contact("Ann", "1", "a@x.com")).is_ok());
    assert!(store.add(contact("Bob", "2", "b@x.com")).is_ok());
    assert!(store.add(contact("Cyd", "3", "c@x.com")).is_ok());
    for (query, phone) in [("Ann", "1"), ("bob", "2"), ("CYD", "3")] {
        match store.search_by_name(query) {
            Some(c) => assert_eq!(c.phone_number, phone.to_string()),
            None => panic!("expected to find a record"),
        }
    }
    assert!(store.search_by_name("Dee").is_none());
}

#[test]
fn not_found_ops_leave_store_unchanged() {
    let mut store = ContactStore::new();
    assert!(store.add(contact("Ann", "555", "a@x.com")).is_ok());
    let before = lines_of(&store);

    match store.edit("Missing", "9", "m@x.com") {
        Ok(_) => panic!("expected a not-found error"),
        Err(e) => assert_eq!(e, StoreError::NotFound),
    }
    match store.delete("Missing") {
        Ok(_) => panic!("expected a not-found error"),
        Err(e) => assert_eq!(e, StoreError::NotFound),
    }
    assert!(store.find_index_exact("Missing").is_none());
    // Exact lookup is case-sensitive: a differently-cased name is absent.
    assert!(store.find_index_exact("ann").is_none());

    assert_eq!(lines_of(&store), before);
}

#[test]
fn delete_preserves_order_of_rest() {
    let mut store = ContactStore::new();
    assert!(store.add(contact("Ann", "1", "a@x.com")).is_ok());
    assert!(store.add(contact("Bob", "2", "b@x.com")).is_ok());
    assert!(store.add(contact("Cyd", "3", "c@x.com")).is_ok());
    assert!(store.add(contact("Dee", "4", "d@x.com")).is_ok());
    assert!(store.delete("Bob").is_ok());
    assert_eq!(lines_of(&store), vec![
        "Ann,1,a@x.com".to_string(),
        "Cyd,3,c@x.com".to_string(),
        "Dee,4,d@x.com".to_string(),
    ]);
}

#[test]
fn edit_updates_only_nonempty_fields() {
    let mut store = ContactStore::new();
    assert!(store.add(contact("Ann", "555", "a@x.com")).is_ok());
    assert!(store.edit("Ann", "999", "").is_ok());
    assert_eq!(lines_of(&store), vec!["Ann,999,a@x.com".to_string()]);
    assert!(store.edit("Ann", "", "new@x.com").is_ok());
    assert_eq!(lines_of(&store), vec!["Ann,999,new@x.com".to_string()]);
    assert!(store.edit("Ann", "", "").is_ok());
    assert_eq!(lines_of(&store), vec!["Ann,999,new@x.com".to_string()]);
}

#[test]
fn add_persist_reload_contains_record_once() {
    let mut store = ContactStore::new();
    assert!(store.add(contact("Bob", "2", "b@x.com")).is_ok());
    assert!(store.add(contact("Ann", "1", "a@x.com")).is_ok());
    let lines = lines_of(&store);
    let (reloaded, skipped) = ContactStore::load(&lines);
    assert_eq!(skipped, 0);
    assert_eq!(reloaded.len(), 2);
    let mut seen: usize = 0;
    let mut i: usize = 0;
    while i < reloaded.len() {
        let c = reloaded.get(i);
        if c.name == "Ann" && c.phone_number == "1" && c.email == "a@x.com" {
            seen += 1;
        }
        i += 1;
    }
    assert_eq!(seen, 1);
}

#[test]
fn load_skips_malformed_lines_and_counts_them() {
    let lines = vec![
        "Ann,555,a@x.com".to_string(),
        "not a record".to_string(),
        "".to_string(),
        "Bob,777,b@x.com".to_string(),
    ];
    let (store, skipped) = ContactStore::load(&lines);
    assert_eq!(skipped, 2);
    assert_eq!(store.len(), 2);
    assert_eq!(lines_of(&store), vec![
        "Ann,555,a@x.com".to_string(),
        "Bob,777,b@x.com".to_string(),
    ]);
}

#[test]
fn load_sorts_case_insensitively() {
    let lines = vec![
        "Zoe,3,z@x.com".to_string(),
        "ann,1,a@x.com".to_string(),
        "Bob,2,b@x.com".to_string(),
    ];
    let (store, skipped) = ContactStore::load(&lines);
    assert_eq!(skipped, 0);
    assert_eq!(lines_of(&store), vec![
        "ann,1,a@x.com".to_string(),
        "Bob,2,b@x.com".to_string(),
        "Zoe,3,z@x.com".to_string(),
    ]);
}

#[test]
fn scenario_session() {
    // Load an empty file, add two records, search one case-insensitively,
    // delete the other, and persist.
    let empty: Vec<String> = Vec::new();
    let (mut store, skipped) = ContactStore::load(&empty);
    assert_eq!(skipped, 0);
    assert_eq!(store.len(), 0);
    assert!(store.add(contact("Ann", "555", "a@x.com")).is_ok());
    assert!(store.add(contact("Bob", "777", "b@x.com")).is_ok());
    match store.search_by_name("bob") {
        Some(c) => {
            assert_eq!(c.name, "Bob".to_string());
            assert_eq!(c.phone_number, "777".to_string());
            assert_eq!(c.email, "b@x.com".to_string());
        },
        None => panic!("expected to find Bob"),
    }
    assert!(store.delete("Ann").is_ok());
    assert_eq!(store.len(), 1);
    assert_eq!(lines_of(&store), vec!["Bob,777,b@x.com".to_string()]);
}

#[test]
fn free_functions_on_plain_vec() {
    let (mut contacts, skipped) = load_contacts(&vec![
        "Cyd,3,c@x.com".to_string(),
        "Ann,1,a@x.com".to_string(),
        "broken".to_string(),
    ]);
    assert_eq!(skipped, 1);
    assert_eq!(contacts.len(), 2);
    // File order is kept until the explicit sort.
    assert_eq!(contacts[0].name, "Cyd".to_string());
    sort_contacts(&mut contacts);
    assert_eq!(contacts[0].name, "Ann".to_string());

    assert!(check_for_duplicates(&contacts, &contact("Ann", "1", "a@x.com")));
    assert!(!check_for_duplicates(&contacts, &contact("Ann", "2", "a@x.com")));

    assert_eq!(find_contact_index(&contacts, "Cyd"), Some(1));
    assert_eq!(find_contact_index(&contacts, "cyd"), None);

    match search_contact(&contacts, "ANN") {
        Some(c) => assert_eq!(c.phone_number, "1".to_string()),
        None => panic!("expected to find Ann"),
    }

    assert!(add_contact(&mut contacts, contact("Bob", "2", "b@x.com")).is_ok());
    assert_eq!(contact_lines(&contacts), vec![
        "Ann,1,a@x.com".to_string(),
        "Bob,2,b@x.com".to_string(),
        "Cyd,3,c@x.com".to_string(),
    ]);

    match edit_contact(&mut contacts, "Bob", "9", "") {
        Ok(_) => {},
        Err(_) => panic!("expected the edit to succeed"),
    }
    assert_eq!(contacts[1].phone_number, "9".to_string());

    match delete_contact(&mut contacts, "Ann") {
        Ok(_) => {},
        Err(_) => panic!("expected the delete to succeed"),
    }
    assert_eq!(contacts.len(), 2);
    assert_eq!(contacts[0].name, "Bob".to_string());
}
