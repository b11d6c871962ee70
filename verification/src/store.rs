//! The contact store: an in-memory sequence of contacts, kept sorted
//! ascending by lower-cased name, with duplicate-detecting insertion,
//! case-insensitive binary search, exact-name lookup, edit and removal,
//! and conversion to and from the persisted line-per-record form.

use vstd::prelude::*;
use vstd::multiset::Multiset;
use vstd::string::StringExecFns;
use vstd::pervasive::VecAdditionalExecFns;
use crate::codec::Contact;
use crate::codec::ContactView;
use crate::codec::StoreError;
use crate::codec::comma_free_contact;
use crate::codec::decode_spec;
use crate::codec::encoded_line;
use crate::codec::lemma_decode_encode;
use crate::lex::lex_le;
use crate::lex::lemma_lex_le_antisym;
use crate::lex::lemma_lex_le_total;
use crate::lex::lemma_lex_le_trans;
use crate::lex::lower_of;
use crate::lex::lowercase;
use crate::lex::str_le;

verus! {

/// The mathematical contents of a sequence of contacts.
pub open spec fn views(s: Seq<Contact>) -> Seq<ContactView> {
    s.map_values(|c: Contact| c@)
}

/// Holds when the sequence is sorted ascending by lower-cased name.
pub open spec fn sorted_by_name(s: Seq<Contact>) -> bool {
    forall|i: int, j: int|
        #![trigger s[i], s[j]]
        0 <= i <= j < s.len() ==> lex_le(lower_of(s[i]@.name), lower_of(s[j]@.name))
}

/// Holds when some record of `s` matches `c` on all three fields.
pub open spec fn has_duplicate(s: Seq<Contact>, c: ContactView) -> bool {
    exists|i: int| 0 <= i < s.len() && s[i]@ == c
}

/// Holds when some record of `s` carries exactly the name `name`.
pub open spec fn has_name(s: Seq<Contact>, name: Seq<char>) -> bool {
    exists|i: int| 0 <= i < s.len() && s[i]@.name == name
}

/// Linear scan for a record equal to the candidate on all three fields.
pub fn check_for_duplicates(contacts: &Vec<Contact>, new_contact: &Contact) -> (dup: bool)
    ensures
        dup == has_duplicate(contacts@, new_contact@),
{
    let mut i: usize = 0;
    while i < contacts.len()
        invariant
            i <= contacts@.len(),
            forall|j: int| 0 <= j < i ==> contacts@[j]@ != new_contact@,
        decreases contacts@.len() - i,
    {
        let c = &contacts[i];
        if c.name == new_contact.name && c.phone_number == new_contact.phone_number
            && c.email == new_contact.email {
            proof {
                assert(contacts@[i as int]@ =~= new_contact@);
            }
            return true;
        }
        proof {
            assert(contacts@[i as int]@ != new_contact@);
        }
        i = i + 1;
    }
    false
}

/// First record whose name matches the given name exactly, case-sensitively.
pub fn find_contact_index(contacts: &Vec<Contact>, name: &str) -> (r: Option<usize>)
    ensures
        match r {
            Some(i) => i < contacts@.len() && contacts@[i as int]@.name == name@
                && forall|j: int| 0 <= j < i ==> contacts@[j]@.name != name@,
            None => !has_name(contacts@, name@),
        },
{
    let target = String::from_str(name);
    let mut i: usize = 0;
    while i < contacts.len()
        invariant
            i <= contacts@.len(),
            target@ == name@,
            forall|j: int| 0 <= j < i ==> contacts@[j]@.name != name@,
        decreases contacts@.len() - i,
    {
        if contacts[i].name == target {
            return Some(i);
        }
        i = i + 1;
    }
    None
}

/// Case-insensitive binary search over a store sorted by lower-cased name.
///
/// The bounds close in with `low < high` as the loop guard, so the search
/// cannot underflow past the first element when the query sorts after every
/// remaining candidate.
pub fn search_contact<'a>(contacts: &'a Vec<Contact>, name: &'a str) -> (r: Option<&'a Contact>)
    requires
        sorted_by_name(contacts@),
    ensures
        match r {
            Some(c) => (exists|i: int| 0 <= i < contacts@.len() && contacts@[i] == *c)
                && lower_of(c@.name) == lower_of(name@),
            None => forall|i: int|
                0 <= i < contacts@.len() ==> lower_of(contacts@[i]@.name) != lower_of(name@),
        },
{
    let target = lowercase(name);
    let mut low: usize = 0;
    let mut high: usize = contacts.len();
    while low < high
        invariant
            sorted_by_name(contacts@),
            low <= high <= contacts@.len(),
            target@ == lower_of(name@),
            forall|i: int| 0 <= i < low ==> lower_of(contacts@[i]@.name) != lower_of(name@),
            forall|i: int|
                high <= i < contacts@.len() ==> lower_of(contacts@[i]@.name) != lower_of(name@),
        decreases high - low,
    {
        let mid = low + (high - low) / 2;
        let mid_lower = lowercase(contacts[mid].name.as_str());
        if mid_lower == target {
            let found = &contacts[mid];
            proof {
                assert(contacts@[mid as int] == *found);
            }
            return Some(found);
        } else if str_le(mid_lower.as_str(), target.as_str()) {
            proof {
                let m = lower_of(contacts@[mid as int]@.name);
                let q = lower_of(name@);
                assert forall|i: int| 0 <= i < mid + 1 implies
                    lower_of(contacts@[i]@.name) != q by {
                    if low <= i {
                        let v = lower_of(contacts@[i]@.name);
                        assert(lex_le(v, m));
                        if v == q {
                            lemma_lex_le_antisym(m, q);
                        }
                    }
                }
            }
            low = mid + 1;
        } else {
            proof {
                let m = lower_of(contacts@[mid as int]@.name);
                let q = lower_of(name@);
                assert forall|i: int| mid <= i < contacts@.len() implies
                    lower_of(contacts@[i]@.name) != q by {
                    let v = lower_of(contacts@[i]@.name);
                    assert(lex_le(m, v));
                    if v == q {
                        assert(lex_le(m, q));
                    }
                }
            }
            high = mid;
        }
    }
    None
}

/// Inserting where everything before is `lex_le` the new name and everything
/// from the position on is `lex_le`-above it keeps the store sorted.
pub proof fn lemma_sorted_insert(s: Seq<Contact>, c: Contact, k: int)
    requires
        sorted_by_name(s),
        0 <= k <= s.len(),
        forall|i: int| 0 <= i < k ==> lex_le(lower_of(#[trigger] s[i]@.name), lower_of(c@.name)),
        forall|i: int| k <= i < s.len() ==> lex_le(lower_of(c@.name), lower_of(#[trigger] s[i]@.name)),
    ensures
        sorted_by_name(s.insert(k, c)),
{
    let t = s.insert(k, c);
    s.insert_ensures(k, c);
    assert forall|i: int, j: int| 0 <= i <= j < t.len() implies
        lex_le(lower_of(t[i]@.name), lower_of(t[j]@.name)) by {
        if i < k {
            assert(t[i] == s[i]);
        }
        if j < k {
            assert(t[j] == s[j]);
        }
        if i > k {
            assert(t[i] == s[i - 1]);
        }
        if j > k {
            assert(t[j] == s[j - 1]);
        }
        if i == j {
            lemma_lex_le_total(lower_of(t[i]@.name), lower_of(t[i]@.name));
        } else if i < k && j > k {
            lemma_lex_le_trans(
                lower_of(s[i]@.name),
                lower_of(c@.name),
                lower_of(s[j - 1]@.name),
            );
        }
    }
}

/// Removing one record keeps the store sorted.
pub proof fn lemma_sorted_remove(s: Seq<Contact>, k: int)
    requires
        sorted_by_name(s),
        0 <= k < s.len(),
    ensures
        sorted_by_name(s.remove(k)),
{
    let t = s.remove(k);
    s.remove_ensures(k);
    assert forall|i: int, j: int| 0 <= i <= j < t.len() implies
        lex_le(lower_of(t[i]@.name), lower_of(t[j]@.name)) by {
        let i0: int = if i < k { i } else { i + 1 };
        let j0: int = if j < k { j } else { j + 1 };
        assert(t[i] == s[i0]);
        assert(t[j] == s[j0]);
    }
}

/// Overwriting a record with one of the same name keeps the store sorted.
pub proof fn lemma_sorted_update(s: Seq<Contact>, k: int, c: Contact)
    requires
        sorted_by_name(s),
        0 <= k < s.len(),
        c@.name == s[k]@.name,
    ensures
        sorted_by_name(s.update(k, c)),
{
    let t = s.update(k, c);
    assert forall|i: int, j: int| 0 <= i <= j < t.len() implies
        lex_le(lower_of(t[i]@.name), lower_of(t[j]@.name)) by {
        assert(s[i] == s[i]);
        assert(s[j] == s[j]);
        assert(t[i]@.name == s[i]@.name);
        assert(t[j]@.name == s[j]@.name);
    }
}

/// Inserting a record anywhere in the sequence adds exactly it to the
/// sequence's multiset of records.
pub proof fn lemma_insert_to_multiset<A>(s: Seq<A>, k: int, x: A)
    requires
        0 <= k <= s.len(),
    ensures
        s.insert(k, x).to_multiset() == s.to_multiset().insert(x),
    decreases s.len() - k,
{
    broadcast use vstd::seq_lib::group_to_multiset_ensures;

    if k == s.len() {
        assert(s.insert(k, x) =~= s.push(x));
    } else {
        let d = s.drop_last();
        let last = s.last();
        lemma_insert_to_multiset(d, k, x);
        assert(s =~= d.push(last));
        assert(s.insert(k, x) =~= d.insert(k, x).push(last));
        assert(s.to_multiset() == d.to_multiset().insert(last));
        assert(s.insert(k, x).to_multiset() == d.insert(k, x).to_multiset().insert(last));
        assert(d.insert(k, x).to_multiset() == d.to_multiset().insert(x));
        assert(d.to_multiset().insert(x).insert(last) =~= d.to_multiset().insert(last).insert(x));
    }
}

/// First position whose record's lower-cased name sorts strictly after the
/// candidate's: the sorted insertion point.
fn insert_position(contacts: &Vec<Contact>, new_contact: &Contact) -> (k: usize)
    ensures
        k <= contacts@.len(),
        forall|i: int|
            0 <= i < k ==> lex_le(
                lower_of(#[trigger] contacts@[i]@.name),
                lower_of(new_contact@.name),
            ),
        k < contacts@.len() ==> !lex_le(
            lower_of(contacts@[k as int]@.name),
            lower_of(new_contact@.name),
        ),
{
    let target = lowercase(new_contact.name.as_str());
    let mut k: usize = 0;
    while k < contacts.len()
        invariant
            k <= contacts@.len(),
            target@ == lower_of(new_contact@.name),
            forall|i: int|
                0 <= i < k ==> lex_le(
                    lower_of(#[trigger] contacts@[i]@.name),
                    lower_of(new_contact@.name),
                ),
        decreases contacts@.len() - k,
    {
        let entry_lower = lowercase(contacts[k].name.as_str());
        if !str_le(entry_lower.as_str(), target.as_str()) {
            return k;
        }
        k = k + 1;
    }
    k
}

/// Appends the candidate at its sorted position unless an equal record is
/// already present, in which case the store is left unchanged.
pub fn add_contact(contacts: &mut Vec<Contact>, new_contact: Contact) -> (r: Result<(), StoreError>)
    requires
        sorted_by_name(old(contacts)@),
    ensures
        sorted_by_name(final(contacts)@),
        match r {
            Err(e) => e == StoreError::DuplicateContact
                && has_duplicate(old(contacts)@, new_contact@)
                && final(contacts)@ == old(contacts)@,
            Ok(u) => !has_duplicate(old(contacts)@, new_contact@)
                && exists|k: int| 0 <= k <= old(contacts)@.len()
                    && final(contacts)@ == old(contacts)@.insert(k, new_contact),
        },
{
    if check_for_duplicates(contacts, &new_contact) {
        return Err(StoreError::DuplicateContact);
    }
    let k = insert_position(contacts, &new_contact);
    proof {
        let s = contacts@;
        let nm = lower_of(new_contact@.name);
        if (k as int) < s.len() {
            lemma_lex_le_total(lower_of(s[k as int]@.name), nm);
            assert forall|i: int| k <= i < s.len() implies
                lex_le(nm, lower_of(#[trigger] s[i]@.name)) by {
                assert(lex_le(lower_of(s[k as int]@.name), lower_of(s[i]@.name)));
                lemma_lex_le_trans(nm, lower_of(s[k as int]@.name), lower_of(s[i]@.name));
            }
        }
        lemma_sorted_insert(s, new_contact, k as int);
    }
    contacts.insert(k, new_contact);
    Ok(())
}

/// Sorts the store ascending by lower-cased name, keeping exactly the same
/// records.
pub fn sort_contacts(contacts: &mut Vec<Contact>)
    ensures
        sorted_by_name(final(contacts)@),
        final(contacts)@.to_multiset() == old(contacts)@.to_multiset(),
{
    broadcast use vstd::seq_lib::group_to_multiset_ensures;

    let mut pending = Vec::<Contact>::new();
    core::mem::swap(contacts, &mut pending);
    proof {
        assert(contacts@.to_multiset().add(pending@.to_multiset())
            =~= old(contacts)@.to_multiset());
    }
    while pending.len() > 0
        invariant
            sorted_by_name(contacts@),
            contacts@.to_multiset().add(pending@.to_multiset()) == old(contacts)@.to_multiset(),
        decreases pending@.len(),
    {
        let ghost prev = contacts@;
        let ghost prev_pending = pending@;
        let c = pending.pop().unwrap();
        let k = insert_position(contacts, &c);
        proof {
            broadcast use vstd::seq_lib::group_to_multiset_ensures;

            let s = contacts@;
            let nm = lower_of(c@.name);
            if (k as int) < s.len() {
                lemma_lex_le_total(lower_of(s[k as int]@.name), nm);
                assert forall|i: int| k <= i < s.len() implies
                    lex_le(nm, lower_of(#[trigger] s[i]@.name)) by {
                    assert(lex_le(lower_of(s[k as int]@.name), lower_of(s[i]@.name)));
                    lemma_lex_le_trans(nm, lower_of(s[k as int]@.name), lower_of(s[i]@.name));
                }
            }
            lemma_sorted_insert(s, c, k as int);
            lemma_insert_to_multiset(prev, k as int, c);
            assert(prev_pending =~= pending@.push(c));
            assert(pending@.push(c).to_multiset() =~= pending@.to_multiset().insert(c));
            assert(prev_pending.to_multiset() == pending@.to_multiset().insert(c));
            assert(prev.insert(k as int, c).to_multiset().add(pending@.to_multiset())
                =~= old(contacts)@.to_multiset());
        }
        contacts.insert(k, c);
    }
    proof {
        assert(pending@.to_multiset() =~= Multiset::<Contact>::empty());
        assert(contacts@.to_multiset().add(pending@.to_multiset()) =~= contacts@.to_multiset());
    }
}

/// Overwrites the phone number and email of the first record carrying the
/// given name; an empty replacement leaves that field unchanged. Reports
/// not-found, mutating nothing, when no record carries the name.
pub fn edit_contact(
    contacts: &mut Vec<Contact>,
    name: &str,
    new_phone: &str,
    new_email: &str,
) -> (r: Result<(), StoreError>)
    ensures
        match r {
            Err(e) => e == StoreError::NotFound && !has_name(old(contacts)@, name@)
                && final(contacts)@ == old(contacts)@,
            Ok(u) => exists|i: int|
                {
                    &&& 0 <= i < old(contacts)@.len()
                    &&& old(contacts)@[i]@.name == name@
                    &&& forall|j: int| 0 <= j < i ==> old(contacts)@[j]@.name != name@
                    &&& final(contacts)@.len() == old(contacts)@.len()
                    &&& forall|j: int|
                        0 <= j < old(contacts)@.len() && j != i ==> final(contacts)@[j] == old(
                            contacts,
                        )@[j]
                    &&& final(contacts)@[i]@.name == old(contacts)@[i]@.name
                    &&& final(contacts)@[i]@.phone_number == if new_phone@.len() == 0 {
                        old(contacts)@[i]@.phone_number
                    } else {
                        new_phone@
                    }
                    &&& final(contacts)@[i]@.email == if new_email@.len() == 0 {
                        old(contacts)@[i]@.email
                    } else {
                        new_email@
                    }
                },
        },
        sorted_by_name(old(contacts)@) ==> sorted_by_name(final(contacts)@),
{
    let i = match find_contact_index(contacts, name) {
        Some(i) => i,
        None => {
            return Err(StoreError::NotFound);
        },
    };
    let entry = &contacts[i];
    let phone_number = if new_phone.is_empty() {
        entry.phone_number.clone()
    } else {
        String::from_str(new_phone)
    };
    let email = if new_email.is_empty() {
        entry.email.clone()
    } else {
        String::from_str(new_email)
    };
    let updated = Contact { name: entry.name.clone(), phone_number, email };
    proof {
        if sorted_by_name(contacts@) {
            lemma_sorted_update(contacts@, i as int, updated);
        }
    }
    contacts.set(i, updated);
    Ok(())
}

/// Removes the first record carrying the given name, keeping the relative
/// order of the rest; reports not-found, mutating nothing, when no record
/// carries it.
pub fn delete_contact(contacts: &mut Vec<Contact>, name: &str) -> (r: Result<(), StoreError>)
    ensures
        match r {
            Err(e) => e == StoreError::NotFound && !has_name(old(contacts)@, name@)
                && final(contacts)@ == old(contacts)@,
            Ok(u) => exists|i: int|
                {
                    &&& 0 <= i < old(contacts)@.len()
                    &&& old(contacts)@[i]@.name == name@
                    &&& forall|j: int| 0 <= j < i ==> old(contacts)@[j]@.name != name@
                    &&& final(contacts)@ == old(contacts)@.subrange(0, i) + old(
                        contacts,
                    )@.subrange(i + 1, old(contacts)@.len() as int)
                },
        },
        sorted_by_name(old(contacts)@) ==> sorted_by_name(final(contacts)@),
{
    let i = match find_contact_index(contacts, name) {
        Some(i) => i,
        None => {
            return Err(StoreError::NotFound);
        },
    };
    proof {
        if sorted_by_name(contacts@) {
            lemma_sorted_remove(contacts@, i as int);
        }
        assert(contacts@.remove(i as int) =~= contacts@.subrange(0, i as int)
            + contacts@.subrange(i + 1, contacts@.len() as int));
    }
    contacts.remove(i);
    Ok(())
}

/// The mathematical contents of a sequence of persisted lines.
pub open spec fn line_views(lines: Seq<String>) -> Seq<Seq<char>> {
    lines.map_values(|s: String| s@)
}

/// The records that decoding a sequence of lines yields, in line order,
/// with lines that do not decode skipped.
pub open spec fn decoded_contacts(lines: Seq<Seq<char>>) -> Seq<ContactView>
    decreases lines.len(),
{
    if lines.len() == 0 {
        Seq::empty()
    } else {
        let rest = decoded_contacts(lines.drop_first());
        match decode_spec(lines[0]) {
            Some(c) => seq![c] + rest,
            None => rest,
        }
    }
}

/// Decoding one more line appends its record, or nothing when it is
/// malformed.
pub proof fn lemma_decoded_push(lines: Seq<Seq<char>>, l: Seq<char>)
    ensures
        decoded_contacts(lines.push(l)) == decoded_contacts(lines) + (match decode_spec(l) {
            Some(c) => seq![c],
            None => Seq::<ContactView>::empty(),
        }),
    decreases lines.len(),
{
    let whole = lines.push(l);
    if lines.len() == 0 {
        reveal_with_fuel(decoded_contacts, 2);
        assert(whole[0] == l);
        assert(whole.drop_first() =~= Seq::<Seq<char>>::empty());
        match decode_spec(l) {
            Some(c) => {
                assert(decoded_contacts(whole) =~= decoded_contacts(lines) + seq![c]);
            },
            None => {
                assert(decoded_contacts(whole) =~= decoded_contacts(lines));
            },
        }
    } else {
        assert(whole[0] == lines[0]);
        assert(whole.drop_first() =~= lines.drop_first().push(l));
        lemma_decoded_push(lines.drop_first(), l);
        match decode_spec(l) {
            Some(c) => {
                assert(decoded_contacts(whole) =~= decoded_contacts(lines) + seq![c]);
            },
            None => {
                assert(decoded_contacts(whole) =~= decoded_contacts(lines));
            },
        }
    }
}

/// Reads every line of the persisted form into a store in file order,
/// skipping the lines that do not decode and counting them.
pub fn load_contacts(lines: &Vec<String>) -> (r: (Vec<Contact>, usize))
    ensures
        views(r.0@) == decoded_contacts(line_views(lines@)),
        r.1 + r.0@.len() == lines@.len(),
{
    let mut contacts: Vec<Contact> = Vec::new();
    let mut skipped: usize = 0;
    let mut i: usize = 0;
    proof {
        assert(views(contacts@) =~= decoded_contacts(line_views(lines@).take(0)));
    }
    while i < lines.len()
        invariant
            i <= lines@.len(),
            views(contacts@) == decoded_contacts(line_views(lines@).take(i as int)),
            skipped + contacts@.len() == i,
        decreases lines@.len() - i,
    {
        let ghost prev = contacts@;
        let ghost taken = line_views(lines@).take(i as int);
        proof {
            assert(line_views(lines@).take(i + 1) =~= taken.push(line_views(lines@)[i as int]));
            lemma_decoded_push(taken, line_views(lines@)[i as int]);
        }
        match Contact::deserialize(lines[i].as_str()) {
            Ok(c) => {
                let ghost cv = c@;
                contacts.push(c);
                proof {
                    assert(views(contacts@) =~= views(prev) + seq![cv]);
                }
            },
            Err(_) => {
                skipped = skipped + 1;
                proof {
                    assert(views(contacts@) =~= views(prev));
                }
            },
        }
        i = i + 1;
    }
    proof {
        assert(line_views(lines@).take(lines@.len() as int) =~= line_views(lines@));
    }
    (contacts, skipped)
}

/// Renders every record as one line, in store order.
pub fn contact_lines(contacts: &Vec<Contact>) -> (lines: Vec<String>)
    ensures
        lines@.len() == contacts@.len(),
        forall|i: int| 0 <= i < contacts@.len() ==> lines@[i]@ == encoded_line(contacts@[i]@),
{
    let mut lines: Vec<String> = Vec::new();
    let mut i: usize = 0;
    while i < contacts.len()
        invariant
            i <= contacts@.len(),
            lines@.len() == i,
            forall|j: int| 0 <= j < i ==> lines@[j]@ == encoded_line(contacts@[j]@),
        decreases contacts@.len() - i,
    {
        lines.push(contacts[i].serialize());
        i = i + 1;
    }
    lines
}

/// Lines that each encode a comma-free record decode back to exactly those
/// records, in order.
pub proof fn lemma_decode_all(cs: Seq<ContactView>, lines: Seq<Seq<char>>)
    requires
        lines.len() == cs.len(),
        forall|i: int| 0 <= i < cs.len() ==> comma_free_contact(#[trigger] cs[i]),
        forall|i: int| 0 <= i < cs.len() ==> lines[i] == encoded_line(#[trigger] cs[i]),
    ensures
        decoded_contacts(lines) == cs,
    decreases lines.len(),
{
    if lines.len() == 0 {
        assert(decoded_contacts(lines) =~= cs);
    } else {
        lemma_decode_encode(cs[0]);
        assert(decode_spec(lines[0]) == Some(cs[0]));
        assert forall|i: int| 0 <= i < cs.drop_first().len() implies comma_free_contact(
            #[trigger] cs.drop_first()[i],
        ) by {
            assert(cs.drop_first()[i] == cs[i + 1]);
        }
        assert forall|i: int| 0 <= i < cs.drop_first().len() implies lines.drop_first()[i]
            == encoded_line(#[trigger] cs.drop_first()[i]) by {
            assert(cs.drop_first()[i] == cs[i + 1]);
            assert(lines.drop_first()[i] == lines[i + 1]);
        }
        lemma_decode_all(cs.drop_first(), lines.drop_first());
        assert(decoded_contacts(lines) =~= cs);
    }
}

/// After a successful add, persisting the store and decoding the persisted
/// lines yields the store's records again, with the added record present
/// exactly once. Holds for records whose fields are comma-free; an embedded
/// delimiter corrupts the round trip, a documented limitation of the format.
pub proof fn lemma_add_persist_reload(
    before: Seq<ContactView>,
    after: Seq<ContactView>,
    c: ContactView,
    k: int,
    lines: Seq<Seq<char>>,
)
    requires
        !contains_record(before, c),
        0 <= k <= before.len(),
        after == before.insert(k, c),
        forall|i: int| 0 <= i < after.len() ==> comma_free_contact(#[trigger] after[i]),
        lines.len() == after.len(),
        forall|i: int| 0 <= i < after.len() ==> lines[i] == encoded_line(#[trigger] after[i]),
    ensures
        decoded_contacts(lines) == after,
        after.to_multiset().count(c) == 1,
{
    broadcast use vstd::seq_lib::group_to_multiset_ensures;

    lemma_decode_all(after, lines);
    lemma_insert_to_multiset(before, k, c);
    assert(!before.contains(c));
    assert(before.to_multiset().count(c) == 0);
    assert(after.to_multiset() == before.to_multiset().insert(c));
}

/// A successful search on a store whose lowered names match the query at
/// exactly one position returns the record at that position.
pub proof fn lemma_search_unique(s: Seq<Contact>, found: Contact, i: int, name: Seq<char>)
    requires
        0 <= i < s.len(),
        lower_of(s[i]@.name) == lower_of(name),
        forall|j: int|
            0 <= j < s.len() && j != i ==> lower_of(#[trigger] s[j]@.name) != lower_of(name),
        exists|j: int| 0 <= j < s.len() && s[j] == found,
        lower_of(found@.name) == lower_of(name),
    ensures
        found == s[i],
{
    let j = choose|j: int| 0 <= j < s.len() && s[j] == found;
    assert(j == i);
}

/// Holds when some record of the store's contents equals `c`.
pub open spec fn contains_record(s: Seq<ContactView>, c: ContactView) -> bool {
    exists|i: int| 0 <= i < s.len() && s[i] == c
}

/// Holds when the store's contents are sorted ascending by lower-cased name.
pub open spec fn sorted_contents(s: Seq<ContactView>) -> bool {
    forall|i: int, j: int|
        #![trigger s[i], s[j]]
        0 <= i <= j < s.len() ==> lex_le(lower_of(s[i].name), lower_of(s[j].name))
}

/// A sequence of contacts is sorted exactly when its contents are.
pub proof fn lemma_sorted_contents(s: Seq<Contact>)
    ensures
        sorted_contents(views(s)) == sorted_by_name(s),
{
    let v = views(s);
    if sorted_by_name(s) {
        assert forall|i: int, j: int|
            #![trigger v[i], v[j]]
            0 <= i <= j < v.len() implies lex_le(lower_of(v[i].name), lower_of(v[j].name)) by {
            assert(v[i] == s[i]@);
            assert(v[j] == s[j]@);
        }
    }
    if sorted_contents(v) {
        assert forall|i: int, j: int|
            #![trigger s[i], s[j]]
            0 <= i <= j < s.len() implies lex_le(
            lower_of(s[i]@.name),
            lower_of(s[j]@.name),
        ) by {
            assert(v[i] == s[i]@);
            assert(v[j] == s[j]@);
        }
    }
}

/// A record is duplicated in a sequence of contacts exactly when its view is
/// among the sequence's contents.
pub proof fn lemma_contains_record(s: Seq<Contact>, c: ContactView)
    ensures
        contains_record(views(s), c) == has_duplicate(s, c),
{
    if has_duplicate(s, c) {
        let i = choose|i: int| 0 <= i < s.len() && s[i]@ == c;
        assert(views(s)[i] == c);
    }
    if contains_record(views(s), c) {
        let i = choose|i: int| 0 <= i < views(s).len() && views(s)[i] == c;
        assert(s[i]@ == c);
    }
}

/// Inserting a contact inserts its view into the contents.
pub proof fn lemma_views_insert(s: Seq<Contact>, k: int, c: Contact)
    requires
        0 <= k <= s.len(),
    ensures
        views(s.insert(k, c)) == views(s).insert(k, c@),
{
    s.insert_ensures(k, c);
    views(s).insert_ensures(k, c@);
    assert(views(s.insert(k, c)) =~= views(s).insert(k, c@));
}

/// Sequences holding the same records hold the same contents, counted with
/// multiplicity.
pub proof fn lemma_views_multiset(s: Seq<Contact>, t: Seq<Contact>)
    requires
        s.to_multiset() == t.to_multiset(),
    ensures
        views(s).to_multiset() == views(t).to_multiset(),
    decreases s.len(),
{
    broadcast use vstd::seq_lib::group_to_multiset_ensures;

    if s.len() == 0 {
        assert(t.to_multiset().len() == 0);
        assert(t.len() == 0);
        assert(views(s) =~= views(t));
    } else {
        let x = s[0];
        assert(s.to_multiset().count(x) > 0) by {
            assert(s.contains(x));
        }
        assert(t.to_multiset().count(x) > 0);
        assert(t.contains(x));
        let j = choose|j: int| 0 <= j < t.len() && t[j] == x;
        let s1 = s.remove(0);
        let t1 = t.remove(j);
        assert(s1.to_multiset() == s.to_multiset().remove(x));
        assert(t1.to_multiset() == t.to_multiset().remove(x));
        lemma_views_multiset(s1, t1);
        assert(views(s1) =~= views(s).remove(0));
        assert(views(t1) =~= views(t).remove(j));
        assert(views(s).remove(0).to_multiset() == views(s).to_multiset().remove(x@)) by {
            assert(views(s)[0] == x@);
        }
        assert(views(t).remove(j).to_multiset() == views(t).to_multiset().remove(x@)) by {
            assert(views(t)[j] == x@);
        }
        assert(views(s).to_multiset().count(x@) > 0) by {
            assert(views(s)[0] == x@);
            assert(views(s).contains(x@));
        }
        assert(views(t).to_multiset().count(x@) > 0) by {
            assert(views(t)[j] == x@);
            assert(views(t).contains(x@));
        }
        assert(views(s).to_multiset() =~= views(s).to_multiset().remove(x@).insert(x@));
        assert(views(t).to_multiset() =~= views(t).to_multiset().remove(x@).insert(x@));
    }
}

/// The contact store: the full in-memory ordered sequence of records, kept
/// sorted ascending by lower-cased name across every mutating operation.
pub struct ContactStore {
    contacts: Vec<Contact>,
}

impl View for ContactStore {
    type V = Seq<ContactView>;

    closed spec fn view(&self) -> Seq<ContactView> {
        views(self.contacts@)
    }
}

impl ContactStore {
    #[verifier::type_invariant]
    spec fn wf(self) -> bool {
        sorted_by_name(self.contacts@)
    }

    /// An empty store.
    pub fn new() -> (s: Self)
        ensures
            s@ == Seq::<ContactView>::empty(),
    {
        let s = ContactStore { contacts: Vec::new() };
        proof {
            assert(s@ =~= Seq::<ContactView>::empty());
        }
        s
    }

    /// Rebuilds the store from the persisted lines: every line that decodes
    /// becomes a record, the rest are skipped and counted, and the result is
    /// sorted by lower-cased name.
    pub fn load(lines: &Vec<String>) -> (r: (ContactStore, usize))
        ensures
            r.0@.to_multiset() == decoded_contacts(line_views(lines@)).to_multiset(),
            sorted_contents(r.0@),
            r.1 + r.0@.len() == lines@.len(),
    {
        let (mut contacts, skipped) = load_contacts(lines);
        let ghost loaded = contacts@;
        sort_contacts(&mut contacts);
        proof {
            broadcast use vstd::seq_lib::group_to_multiset_ensures;

            lemma_views_multiset(contacts@, loaded);
            lemma_sorted_contents(contacts@);
            assert(views(contacts@).to_multiset().len() == views(contacts@).len());
        }
        (ContactStore { contacts }, skipped)
    }

    /// How many records the store holds.
    pub fn len(&self) -> (n: usize)
        ensures
            n == self@.len(),
    {
        self.contacts.len()
    }

    /// The record at a position, in sorted store order.
    pub fn get(&self, i: usize) -> (c: &Contact)
        requires
            i < self@.len(),
        ensures
            c@ == self@[i as int],
    {
        &self.contacts[i]
    }

    /// Whether a candidate matches some record on all three fields.
    pub fn is_duplicate(&self, candidate: &Contact) -> (dup: bool)
        ensures
            dup == contains_record(self@, candidate@),
    {
        let dup = check_for_duplicates(&self.contacts, candidate);
        proof {
            lemma_contains_record(self.contacts@, candidate@);
        }
        dup
    }

    /// Adds a record at its sorted position, unless an equal record already
    /// exists, in which case the store is unchanged and the duplicate is
    /// reported.
    pub fn add(&mut self, new_contact: Contact) -> (r: Result<(), StoreError>)
        ensures
            sorted_contents(final(self)@),
            match r {
                Err(e) => e == StoreError::DuplicateContact
                    && contains_record(old(self)@, new_contact@)
                    && final(self)@ == old(self)@,
                Ok(u) => !contains_record(old(self)@, new_contact@)
                    && exists|k: int| 0 <= k <= old(self)@.len()
                        && final(self)@ == old(self)@.insert(k, new_contact@),
            },
    {
        proof {
            use_type_invariant(&*self);
        }
        let ghost nc: Contact = new_contact;
        let mut working: Vec<Contact> = Vec::new();
        core::mem::swap(&mut self.contacts, &mut working);
        let ghost prev = working@;
        let r = add_contact(&mut working, new_contact);
        core::mem::swap(&mut self.contacts, &mut working);
        proof {
            lemma_sorted_contents(self.contacts@);
            lemma_contains_record(prev, nc@);
            if r is Ok {
                let k = choose|k: int|
                    0 <= k <= prev.len() && self.contacts@ == prev.insert(k, nc);
                lemma_views_insert(prev, k, nc);
                assert(self@ == views(prev).insert(k, nc@));
                assert(0 <= k <= old(self)@.len() && self@ == old(self)@.insert(k, nc@));
            } else {
                assert(self.contacts@ == prev);
                assert(self@ == old(self)@);
            }
        }
        r
    }

    /// Case-insensitive binary search for a record by name.
    pub fn search_by_name<'a>(&'a self, name: &'a str) -> (r: Option<&'a Contact>)
        ensures
            match r {
                Some(c) => contains_record(self@, c@) && lower_of(c@.name) == lower_of(name@),
                None => forall|i: int|
                    0 <= i < self@.len() ==> lower_of(self@[i].name) != lower_of(name@),
            },
    {
        proof {
            use_type_invariant(&*self);
        }
        let r = search_contact(&self.contacts, name);
        proof {
            match r {
                Some(c) => {
                    let i = choose|i: int|
                        0 <= i < self.contacts@.len() && self.contacts@[i] == *c;
                    assert(self@[i] == c@);
                },
                None => {
                    assert forall|i: int| 0 <= i < self@.len() implies
                        lower_of(self@[i].name) != lower_of(name@) by {
                        assert(self@[i] == self.contacts@[i]@);
                    }
                },
            }
        }
        r
    }

    /// Position of the first record whose name matches exactly.
    pub fn find_index_exact(&self, name: &str) -> (r: Option<usize>)
        ensures
            match r {
                Some(i) => i < self@.len() && self@[i as int].name == name@
                    && forall|j: int| 0 <= j < i ==> self@[j].name != name@,
                None => forall|i: int| 0 <= i < self@.len() ==> self@[i].name != name@,
            },
    {
        let r = find_contact_index(&self.contacts, name);
        proof {
            assert forall|i: int| 0 <= i < self@.len() implies
                self@[i] == self.contacts@[i]@ by {}
        }
        r
    }

    /// Overwrites the phone number and email of the first record carrying
    /// the name; an empty replacement leaves the field unchanged.
    pub fn edit(&mut self, name: &str, new_phone: &str, new_email: &str) -> (r: Result<
        (),
        StoreError,
    >)
        ensures
            sorted_contents(final(self)@),
            match r {
                Err(e) => e == StoreError::NotFound
                    && (forall|i: int| 0 <= i < old(self)@.len() ==> old(self)@[i].name != name@)
                    && final(self)@ == old(self)@,
                Ok(u) => exists|i: int|
                    {
                        &&& 0 <= i < old(self)@.len()
                        &&& old(self)@[i].name == name@
                        &&& forall|j: int| 0 <= j < i ==> old(self)@[j].name != name@
                        &&& final(self)@.len() == old(self)@.len()
                        &&& forall|j: int|
                            0 <= j < old(self)@.len() && j != i ==> final(self)@[j] == old(
                                self,
                            )@[j]
                        &&& final(self)@[i].name == old(self)@[i].name
                        &&& final(self)@[i].phone_number == if new_phone@.len() == 0 {
                            old(self)@[i].phone_number
                        } else {
                            new_phone@
                        }
                        &&& final(self)@[i].email == if new_email@.len() == 0 {
                            old(self)@[i].email
                        } else {
                            new_email@
                        }
                    },
            },
    {
        proof {
            use_type_invariant(&*self);
        }
        let mut working: Vec<Contact> = Vec::new();
        core::mem::swap(&mut self.contacts, &mut working);
        let ghost prev = working@;
        let r = edit_contact(&mut working, name, new_phone, new_email);
        let ghost after = working@;
        core::mem::swap(&mut self.contacts, &mut working);
        proof {
            assert(self.contacts@ == after);
            lemma_sorted_contents(self.contacts@);
            match r {
                Ok(u) => {
                    let i = choose|i: int|
                        {
                            &&& 0 <= i < prev.len()
                            &&& prev[i]@.name == name@
                            &&& forall|j: int| 0 <= j < i ==> prev[j]@.name != name@
                            &&& after.len() == prev.len()
                            &&& forall|j: int|
                                0 <= j < prev.len() && j != i ==> after[j] == prev[j]
                            &&& after[i]@.name == prev[i]@.name
                            &&& after[i]@.phone_number == if new_phone@.len() == 0 {
                                prev[i]@.phone_number
                            } else {
                                new_phone@
                            }
                            &&& after[i]@.email == if new_email@.len() == 0 {
                                prev[i]@.email
                            } else {
                                new_email@
                            }
                        };
                    assert(old(self)@[i] == prev[i]@);
                    assert(forall|j: int| 0 <= j < i ==> old(self)@[j] == prev[j]@);
                    assert(self@.len() == views(after).len() == after.len());
                    assert(forall|j: int|
                        0 <= j < prev.len() && j != i ==> self@[j] == #[trigger] after[j]@);
                    assert(forall|j: int|
                        0 <= j < prev.len() && j != i ==> old(self)@[j] == #[trigger] prev[j]@);
                    assert(self@[i] == after[i]@);
                },
                Err(e) => {
                    assert forall|i: int| 0 <= i < prev.len() implies
                        prev[i]@.name != name@ by {}
                    assert forall|i: int| 0 <= i < old(self)@.len() implies
                        old(self)@[i].name != name@ by {
                        assert(old(self)@[i] == prev[i]@);
                    }
                    assert(self@ =~= old(self)@);
                },
            }
        }
        r
    }

    /// Removes the first record carrying the name, keeping the order of the
    /// rest.
    pub fn delete(&mut self, name: &str) -> (r: Result<(), StoreError>)
        ensures
            sorted_contents(final(self)@),
            match r {
                Err(e) => e == StoreError::NotFound
                    && (forall|i: int| 0 <= i < old(self)@.len() ==> old(self)@[i].name != name@)
                    && final(self)@ == old(self)@,
                Ok(u) => exists|i: int|
                    {
                        &&& 0 <= i < old(self)@.len()
                        &&& old(self)@[i].name == name@
                        &&& forall|j: int| 0 <= j < i ==> old(self)@[j].name != name@
                        &&& final(self)@ == old(self)@.subrange(0, i) + old(self)@.subrange(
                            i + 1,
                            old(self)@.len() as int,
                        )
                    },
            },
    {
        proof {
            use_type_invariant(&*self);
        }
        let mut working: Vec<Contact> = Vec::new();
        core::mem::swap(&mut self.contacts, &mut working);
        let ghost prev = working@;
        let r = delete_contact(&mut working, name);
        let ghost after = working@;
        core::mem::swap(&mut self.contacts, &mut working);
        proof {
            assert(self.contacts@ == after);
            lemma_sorted_contents(self.contacts@);
            match r {
                Ok(u) => {
                    let i = choose|i: int|
                        {
                            &&& 0 <= i < prev.len()
                            &&& prev[i]@.name == name@
                            &&& forall|j: int| 0 <= j < i ==> prev[j]@.name != name@
                            &&& after == prev.subrange(0, i) + prev.subrange(
                                i + 1,
                                prev.len() as int,
                            )
                        };
                    assert(old(self)@[i] == prev[i]@);
                    assert(forall|j: int| 0 <= j < i ==> old(self)@[j] == #[trigger] prev[j]@);
                    assert(self@ =~= old(self)@.subrange(0, i) + old(self)@.subrange(
                        i + 1,
                        old(self)@.len() as int,
                    ));
                },
                Err(e) => {
                    assert forall|i: int| 0 <= i < prev.len() implies
                        prev[i]@.name != name@ by {}
                    assert forall|i: int| 0 <= i < old(self)@.len() implies
                        old(self)@[i].name != name@ by {
                        assert(old(self)@[i] == prev[i]@);
                    }
                    assert(self@ =~= old(self)@);
                },
            }
        }
        r
    }

    /// Serializes every record, one line each, in store order: the lines that
    /// fully overwrite the backing store on persist.
    pub fn to_lines(&self) -> (lines: Vec<String>)
        ensures
            lines@.len() == self@.len(),
            forall|i: int| 0 <= i < self@.len() ==> lines@[i]@ == encoded_line(self@[i]),
    {
        let lines = contact_lines(&self.contacts);
        proof {
            assert forall|i: int| 0 <= i < self@.len() implies
                self@[i] == self.contacts@[i]@ by {}
        }
        lines
    }
}

} // verus!
