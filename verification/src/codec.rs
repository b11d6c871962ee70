//! The record codec: a contact and its one-line comma-separated textual form.
//!
//! A line is split on every comma; a record needs at least three parts, which
//! become name, phone number and email in that order. Extra parts are
//! discarded, so a field holding a comma does not survive the round trip: the
//! encoder writes fields verbatim, without escaping.

use vstd::prelude::*;
use vstd::string::StrSliceExecFns;
use vstd::string::StringExecFns;
use crate::lex::lower_of;
use crate::lex::lowercase;

verus! {

/// The mathematical value of a contact: its three fields as character
/// sequences.
#[verifier::ext_equal]
pub ghost struct ContactView {
    pub name: Seq<char>,
    pub phone_number: Seq<char>,
    pub email: Seq<char>,
}

/// One record of the store: a name, a phone number and an email address,
/// all free-form text.
pub struct Contact {
    pub name: String,
    pub phone_number: String,
    pub email: String,
}

impl View for Contact {
    type V = ContactView;

    open spec fn view(&self) -> ContactView {
        ContactView { name: self.name@, phone_number: self.phone_number@, email: self.email@ }
    }
}

impl Clone for Contact {
    fn clone(&self) -> (c: Self)
        ensures
            c == *self,
    {
        Contact {
            name: self.name.clone(),
            phone_number: self.phone_number.clone(),
            email: self.email.clone(),
        }
    }
}

/// Every error a store operation can report.
#[derive(Clone, Copy, PartialEq, Eq, Structural, Debug)]
pub enum StoreError {
    /// A persisted line did not decode to a record.
    MalformedRecord,
    /// An added record matched an existing one on all three fields.
    DuplicateContact,
    /// No record carries the requested name.
    NotFound,
}

/// Holds when no character of `s` is the field delimiter.
pub open spec fn comma_free(s: Seq<char>) -> bool {
    forall|i: int| 0 <= i < s.len() ==> s[i] != ','
}

/// Holds when none of a contact's fields contains the field delimiter.
pub open spec fn comma_free_contact(c: ContactView) -> bool {
    comma_free(c.name) && comma_free(c.phone_number) && comma_free(c.email)
}

/// The one-line textual form of a contact.
pub open spec fn encoded_line(c: ContactView) -> Seq<char> {
    c.name + seq![','] + c.phone_number + seq![','] + c.email
}

/// Splits a sequence at every comma. The result always has at least one part.
pub open spec fn split_commas(s: Seq<char>) -> Seq<Seq<char>>
    decreases s.len(),
{
    if s.len() == 0 {
        seq![Seq::<char>::empty()]
    } else if s[0] == ',' {
        seq![Seq::<char>::empty()] + split_commas(s.drop_first())
    } else {
        let rest = split_commas(s.drop_first());
        seq![seq![s[0]] + rest[0]] + rest.drop_first()
    }
}

/// The record a persisted line stands for: the first three comma-separated
/// parts, or nothing when the line has fewer than three.
pub open spec fn decode_spec(line: Seq<char>) -> Option<ContactView> {
    let parts = split_commas(line);
    if parts.len() >= 3 {
        Some(ContactView { name: parts[0], phone_number: parts[1], email: parts[2] })
    } else {
        None
    }
}

/// Splitting never yields an empty list of parts.
pub proof fn lemma_split_at_least_one(s: Seq<char>)
    ensures
        split_commas(s).len() >= 1,
    decreases s.len(),
{
    if s.len() != 0 {
        lemma_split_at_least_one(s.drop_first());
    }
}

/// A comma-free sequence is a single part.
pub proof fn lemma_split_comma_free(s: Seq<char>)
    requires
        comma_free(s),
    ensures
        split_commas(s) == seq![s],
    decreases s.len(),
{
    if s.len() == 0 {
        assert(s =~= Seq::<char>::empty());
    } else {
        assert(comma_free(s.drop_first()));
        lemma_split_comma_free(s.drop_first());
        lemma_split_at_least_one(s.drop_first());
        assert(seq![s[0]] + s.drop_first() =~= s);
        assert(split_commas(s) =~= seq![s]);
    }
}

/// Splitting after a comma-free prefix and a comma yields that prefix as the
/// first part, followed by the split of the remainder.
pub proof fn lemma_split_prefix(a: Seq<char>, rest: Seq<char>)
    requires
        comma_free(a),
    ensures
        split_commas(a + seq![','] + rest) == seq![a] + split_commas(rest),
    decreases a.len(),
{
    let s = a + seq![','] + rest;
    if a.len() == 0 {
        assert(s[0] == ',');
        assert(s.drop_first() =~= rest);
        assert(a =~= Seq::<char>::empty());
        assert(split_commas(s) =~= seq![a] + split_commas(rest));
    } else {
        assert(s[0] == a[0]);
        assert(s[0] != ',');
        assert(comma_free(a.drop_first()));
        assert(s.drop_first() =~= a.drop_first() + seq![','] + rest);
        lemma_split_prefix(a.drop_first(), rest);
        let inner = seq![a.drop_first()] + split_commas(rest);
        assert(split_commas(s.drop_first()) == inner);
        assert(inner[0] == a.drop_first());
        assert(seq![s[0]] + inner[0] =~= a);
        assert(inner.drop_first() =~= split_commas(rest));
        assert(split_commas(s) =~= seq![a] + split_commas(rest));
    }
}

/// Decoding inverts encoding for any contact whose fields are comma-free.
pub proof fn lemma_decode_encode(c: ContactView)
    requires
        comma_free_contact(c),
    ensures
        decode_spec(encoded_line(c)) == Some(c),
{
    let tail = c.phone_number + seq![','] + c.email;
    assert(encoded_line(c) =~= c.name + seq![','] + tail);
    lemma_split_prefix(c.name, tail);
    lemma_split_prefix(c.phone_number, c.email);
    lemma_split_comma_free(c.email);
    let parts = split_commas(encoded_line(c));
    assert(parts =~= seq![c.name, c.phone_number, c.email]);
    assert(decode_spec(encoded_line(c)) == Some(ContactView {
        name: c.name,
        phone_number: c.phone_number,
        email: c.email,
    }));
    assert(ContactView { name: c.name, phone_number: c.phone_number, email: c.email } =~= c);
}

impl Contact {
    /// Creates a record, canonicalizing the email address to lower case.
    pub fn new(name: String, phone_number: String, email: String) -> (c: Contact)
        ensures
            c@.name == name@,
            c@.phone_number == phone_number@,
            c@.email == lower_of(email@),
    {
        let email_lower = lowercase(email.as_str());
        Contact { name, phone_number, email: email_lower }
    }

    /// Renders the record as one comma-separated line.
    pub fn serialize(&self) -> (line: String)
        ensures
            line@ == encoded_line(self@),
    {
        let mut line = String::from_str(self.name.as_str());
        line.append(",");
        line.append(self.phone_number.as_str());
        line.append(",");
        line.append(self.email.as_str());
        proof {
            reveal_strlit(",");
            assert(","@ =~= seq![',']);
            assert(line@ =~= encoded_line(self@));
        }
        line
    }

    /// Reads a record back from one line, reporting a malformed line rather
    /// than failing on it.
    pub fn deserialize(data: &str) -> (r: Result<Contact, StoreError>)
        ensures
            match r {
                Ok(c) => decode_spec(data@) == Some(c@),
                Err(e) => decode_spec(data@) is None && e == StoreError::MalformedRecord,
            },
    {
        let n = data.unicode_len();
        let c1 = match find_comma(data, 0, n) {
            Some(i) => i,
            None => {
                proof {
                    lemma_split_comma_free(data@);
                }
                return Err(StoreError::MalformedRecord);
            },
        };
        let c2 = match find_comma(data, c1 + 1, n) {
            Some(i) => i,
            None => {
                proof {
                    let head = data@.subrange(0, c1 as int);
                    let tail = data@.subrange(c1 + 1, n as int);
                    assert(data@ =~= head + seq![','] + tail);
                    lemma_split_prefix(head, tail);
                    lemma_split_comma_free(tail);
                }
                return Err(StoreError::MalformedRecord);
            },
        };
        let end = match find_comma(data, c2 + 1, n) {
            Some(i) => i,
            None => n,
        };
        let name = String::from_str(data.substring_char(0, c1));
        let phone_number = String::from_str(data.substring_char(c1 + 1, c2));
        let email = String::from_str(data.substring_char(c2 + 1, end));
        let c = Contact { name, phone_number, email };
        proof {
            let head = data@.subrange(0, c1 as int);
            let mid = data@.subrange(c1 + 1, c2 as int);
            let tail1 = data@.subrange(c1 + 1, n as int);
            let tail2 = data@.subrange(c2 + 1, n as int);
            assert(data@ =~= head + seq![','] + tail1);
            lemma_split_prefix(head, tail1);
            assert(tail1 =~= mid + seq![','] + tail2);
            lemma_split_prefix(mid, tail2);
            if end < n {
                let part = data@.subrange(c2 + 1, end as int);
                let rest = data@.subrange(end + 1, n as int);
                assert(tail2 =~= part + seq![','] + rest);
                lemma_split_prefix(part, rest);
                lemma_split_at_least_one(rest);
                assert(split_commas(tail2)[0] == part);
            } else {
                lemma_split_comma_free(tail2);
                assert(split_commas(tail2)[0] == tail2);
            }
            lemma_split_at_least_one(tail2);
            let parts = split_commas(data@);
            assert(parts.len() >= 3);
            assert(parts[0] == head);
            assert(parts[1] == mid);
            assert(parts[2] == split_commas(tail2)[0]);
            assert(c@ =~= ContactView { name: parts[0], phone_number: parts[1], email: parts[2] });
        }
        Ok(c)
    }
}

/// Finds the first comma of `s` at or after `start`.
fn find_comma(s: &str, start: usize, n: usize) -> (r: Option<usize>)
    requires
        n == s@.len(),
        start <= n,
    ensures
        match r {
            Some(i) => start <= i < n && s@[i as int] == ','
                && forall|j: int| start <= j < i ==> s@[j] != ',',
            None => forall|j: int| start <= j < n ==> s@[j] != ',',
        },
{
    let mut i: usize = start;
    while i < n
        invariant
            n == s@.len(),
            start <= i <= n,
            forall|j: int| start <= j < i ==> s@[j] != ',',
        decreases n - i,
    {
        if s.get_char(i) == ',' {
            return Some(i);
        }
        i = i + 1;
    }
    None
}

} // verus!
