//! The event that the stages work on: an ordered set of named fields, one of
//! which, `message`, is reserved for the raw log line.

use crate::buffer::bytes_contents;
use crate::text::{decimal_text, format_integer, lossy_text, str_eq, utf8_lossy};
use bytes::Bytes;
use core::ops::Deref;
use vstd::prelude::*;
use vstd::slice::slice_to_vec;
use vstd::utf8::{decode_utf8, encode_utf8, valid_utf8};

verus! {

/// What a field holds.
#[derive(Debug, PartialEq)]
pub enum ValueKind {
    Bytes(Bytes),
    Integer(i64),
    Boolean(bool),
}

/// What a [`ValueKind`] is, mathematically.
pub enum ValueModel {
    Bytes(Seq<u8>),
    Integer(i64),
    Boolean(bool),
}

/// The bytes `true`.
pub open spec fn true_text() -> Seq<u8> {
    seq![0x74u8, 0x72u8, 0x75u8, 0x65u8]
}

/// The bytes `false`.
pub open spec fn false_text() -> Seq<u8> {
    seq![0x66u8, 0x61u8, 0x6Cu8, 0x73u8, 0x65u8]
}

/// A value seen as bytes: the bytes themselves, the decimal text of an integer,
/// `true` or `false`.
pub open spec fn value_bytes(v: ValueModel) -> Seq<u8> {
    match v {
        ValueModel::Bytes(b) => b,
        ValueModel::Integer(i) => decimal_text(i as int),
        ValueModel::Boolean(b) => if b {
            true_text()
        } else {
            false_text()
        },
    }
}

/// A value seen as text: its bytes, read as UTF-8 with malformed parts replaced.
pub open spec fn value_text(v: ValueModel) -> Seq<char> {
    lossy_text(value_bytes(v))
}

impl View for ValueKind {
    type V = ValueModel;

    open spec fn view(&self) -> ValueModel {
        match self {
            ValueKind::Bytes(b) => ValueModel::Bytes(bytes_contents(*b)),
            ValueKind::Integer(i) => ValueModel::Integer(*i),
            ValueKind::Boolean(b) => ValueModel::Boolean(*b),
        }
    }
}

impl Clone for ValueKind {
    fn clone(&self) -> (r: Self)
        ensures
            r@ == self@,
    {
        match self {
            ValueKind::Bytes(b) => ValueKind::Bytes(b.clone()),
            ValueKind::Integer(i) => ValueKind::Integer(*i),
            ValueKind::Boolean(b) => ValueKind::Boolean(*b),
        }
    }
}

impl ValueKind {
    /// The value as bytes.
    pub fn as_bytes(&self) -> (r: Bytes)
        ensures
            bytes_contents(r) == value_bytes(self@),
    {
        match self {
            ValueKind::Bytes(b) => b.clone(),
            ValueKind::Integer(i) => Bytes::from(format_integer(*i)),
            ValueKind::Boolean(b) => {
                let text: Vec<u8> = if *b {
                    vec![0x74u8, 0x72u8, 0x75u8, 0x65u8]
                } else {
                    vec![0x66u8, 0x61u8, 0x6Cu8, 0x73u8, 0x65u8]
                };
                assert(*b ==> text@ =~= true_text());
                assert(!*b ==> text@ =~= false_text());
                Bytes::from(text)
            },
        }
    }

    /// The value as text, with malformed UTF-8 replaced.
    pub fn to_string_lossy(&self) -> (r: String)
        ensures
            r@ == value_text(self@),
            valid_utf8(value_bytes(self@)) ==> r@ == decode_utf8(value_bytes(self@)),
    {
        let bytes = self.as_bytes();
        utf8_lossy(bytes.deref())
    }
}

/// One named field of an event.
#[derive(Debug, PartialEq)]
pub struct Field {
    pub key: String,
    pub value: ValueKind,
}

impl View for Field {
    type V = (Seq<char>, ValueModel);

    open spec fn view(&self) -> (Seq<char>, ValueModel) {
        (self.key@, self.value@)
    }
}

impl Clone for Field {
    fn clone(&self) -> (r: Self)
        ensures
            r@ == self@,
    {
        Field { key: self.key.clone(), value: self.value.clone() }
    }
}

/// The name of the reserved field that holds the raw log line.
pub open spec fn message_key() -> Seq<char> {
    "message"@
}

/// Is some entry named `key`?
pub open spec fn has_key(entries: Seq<(Seq<char>, ValueModel)>, key: Seq<char>) -> bool {
    exists|i: int| 0 <= i < entries.len() && (#[trigger] entries[i]).0 == key
}

/// The place of an entry named `key`, where there is one.
pub open spec fn index_of(entries: Seq<(Seq<char>, ValueModel)>, key: Seq<char>) -> int {
    choose|i: int| 0 <= i < entries.len() && (#[trigger] entries[i]).0 == key
}

/// Does no name occur twice?
pub open spec fn distinct_keys(entries: Seq<(Seq<char>, ValueModel)>) -> bool {
    forall|i: int, j: int|
        0 <= i < j < entries.len() ==> (#[trigger] entries[i]).0 != (#[trigger] entries[j]).0
}

/// The entries as a map from name to value.
pub open spec fn entries_map(entries: Seq<(Seq<char>, ValueModel)>) -> Map<
    Seq<char>,
    ValueModel,
> {
    Map::new(|k: Seq<char>| has_key(entries, k), |k: Seq<char>| entries[index_of(entries, k)].1)
}

/// Is some entry named otherwise than `message`?
pub open spec fn structured(entries: Seq<(Seq<char>, ValueModel)>) -> bool {
    exists|i: int| 0 <= i < entries.len() && (#[trigger] entries[i]).0 != message_key()
}

/// The entries after `key` has been set to `value`: an entry of that name is
/// overwritten where it stands, a new name goes to the end.
pub open spec fn entries_insert(
    entries: Seq<(Seq<char>, ValueModel)>,
    key: Seq<char>,
    value: ValueModel,
) -> Seq<(Seq<char>, ValueModel)> {
    if has_key(entries, key) {
        entries.update(index_of(entries, key), (key, value))
    } else {
        entries.push((key, value))
    }
}

/// Among distinct names, the entry at `i` is the one that its name finds.
pub proof fn lemma_index_of(entries: Seq<(Seq<char>, ValueModel)>, i: int)
    requires
        distinct_keys(entries),
        0 <= i < entries.len(),
    ensures
        has_key(entries, entries[i].0),
        index_of(entries, entries[i].0) == i,
        entries_map(entries)[entries[i].0] == entries[i].1,
{
    let k = entries[i].0;
    let j = index_of(entries, k);
    assert(0 <= j < entries.len() && entries[j].0 == k);
}

/// Setting a field keeps the names distinct and updates the map at that name only.
pub proof fn lemma_entries_insert(
    entries: Seq<(Seq<char>, ValueModel)>,
    key: Seq<char>,
    value: ValueModel,
)
    requires
        distinct_keys(entries),
    ensures
        distinct_keys(entries_insert(entries, key, value)),
        entries_map(entries_insert(entries, key, value)) == entries_map(entries).insert(
            key,
            value,
        ),
{
    let after = entries_insert(entries, key, value);
    let at = if has_key(entries, key) {
        index_of(entries, key)
    } else {
        entries.len() as int
    };
    assert(after[at] == (key, value));
    assert forall|i: int| 0 <= i < after.len() && i != at implies #[trigger] after[i]
        == entries[i] by {}
    assert forall|i: int, j: int| 0 <= i < j < after.len() implies (#[trigger] after[i]).0 != (
    #[trigger] after[j]).0 by {
        if i != at && j != at {
            assert(entries[i].0 != entries[j].0);
        } else if has_key(entries, key) {
            let other = if i == at {
                j
            } else {
                i
            };
            assert(entries[at].0 == key);
            assert(entries[other].0 != entries[at].0);
        } else {
            let other = if i == at {
                j
            } else {
                i
            };
            assert(entries[other].0 != key);
        }
    }
    assert forall|k: Seq<char>| has_key(after, k) <==> (k == key || has_key(entries, k)) by {
        if has_key(after, k) {
            let i = index_of(after, k);
            if i != at {
                assert(entries[i].0 == k);
            }
        }
        if k == key {
            assert(after[at].0 == k);
        } else if has_key(entries, k) {
            let i = index_of(entries, k);
            assert(after[i].0 == k);
        }
    }
    assert forall|k: Seq<char>| has_key(after, k) implies #[trigger] entries_map(after)[k]
        == entries_map(entries).insert(key, value)[k] by {
        let i = index_of(after, k);
        lemma_index_of(after, i);
        if k != key {
            assert(i != at);
            lemma_index_of(entries, i);
        } else {
            assert(after[at].0 == key);
            assert(i == at);
        }
    }
    assert(entries_map(after) =~= entries_map(entries).insert(key, value));
}

/// An event: named fields in the order in which their names first came.
#[derive(Debug, PartialEq)]
pub struct Event {
    fields: Vec<Field>,
}

impl View for Event {
    type V = Map<Seq<char>, ValueModel>;

    /// The event as a map from field name to value.
    open spec fn view(&self) -> Map<Seq<char>, ValueModel> {
        entries_map(self.entries())
    }
}

impl Clone for Event {
    fn clone(&self) -> (r: Self)
        ensures
            r.entries() == self.entries(),
    {
        let mut fields: Vec<Field> = Vec::new();
        let mut i: usize = 0;
        while i < self.fields.len()
            invariant
                i <= self.fields.len(),
                fields.len() == i,
                forall|j: int| 0 <= j < i ==> (#[trigger] fields[j])@ == self.fields[j]@,
            decreases self.fields.len() - i,
        {
            fields.push(self.fields[i].clone());
            i += 1;
        }
        proof {
            use_type_invariant(self);
            assert(fields@.map_values(|f: Field| f@) =~= self.fields@.map_values(|f: Field| f@));
        }
        Event { fields }
    }
}

impl Event {
    /// The fields in order, each as its name and value.
    pub closed spec fn entries(&self) -> Seq<(Seq<char>, ValueModel)> {
        self.fields@.map_values(|f: Field| f@)
    }

    /// The invariant of an event: no field name occurs twice.
    #[verifier::type_invariant]
    pub open spec fn well_formed(&self) -> bool {
        distinct_keys(self.entries())
    }

    /// An event without fields.
    pub fn new() -> (e: Event)
        ensures
            e.entries() == Seq::<(Seq<char>, ValueModel)>::empty(),
            e@ == Map::<Seq<char>, ValueModel>::empty(),
    {
        let fields: Vec<Field> = Vec::new();
        assert(fields@.map_values(|f: Field| f@) =~= Seq::<(Seq<char>, ValueModel)>::empty());
        let e = Event { fields };
        assert(e@ =~= Map::<Seq<char>, ValueModel>::empty());
        e
    }

    /// An event that holds the log line `message`, as bytes, and nothing else.
    pub fn from(message: &str) -> (e: Event)
        ensures
            e.entries() == seq![(message_key(), ValueModel::Bytes(encode_utf8(message@)))],
            e@ == Map::<Seq<char>, ValueModel>::empty().insert(
                message_key(),
                ValueModel::Bytes(encode_utf8(message@)),
            ),
    {
        let value = ValueKind::Bytes(Bytes::from(slice_to_vec(message.as_bytes())));
        let mut fields: Vec<Field> = Vec::new();
        fields.push(Field { key: "message".to_owned(), value });
        let ghost only = (message_key(), ValueModel::Bytes(encode_utf8(message@)));
        assert(fields@.map_values(|f: Field| f@) =~= seq![only]);
        let e = Event { fields };
        proof {
            lemma_index_of(e.entries(), 0);
            assert(e@ =~= Map::<Seq<char>, ValueModel>::empty().insert(only.0, only.1));
        }
        e
    }

    /// The place of the field named `key`, if there is one.
    fn position(&self, key: &str) -> (r: Option<usize>)
        ensures
            match r {
                Some(i) => i < self.entries().len() && self.entries()[i as int].0 == key@,
                None => !has_key(self.entries(), key@),
            },
    {
        let mut i: usize = 0;
        while i < self.fields.len()
            invariant
                i <= self.fields.len(),
                forall|j: int| 0 <= j < i ==> (#[trigger] self.entries()[j]).0 != key@,
            decreases self.fields.len() - i,
        {
            if str_eq(self.fields[i].key.as_str(), key) {
                return Some(i);
            }
            i += 1;
        }
        None
    }

    /// The value of the field named `key`, if the event has one.
    pub fn get(&self, key: &str) -> (r: Option<&ValueKind>)
        ensures
            match r {
                Some(v) => self@.contains_key(key@) && v@ == self@[key@],
                None => !self@.contains_key(key@),
            },
    {
        match self.position(key) {
            Some(i) => {
                proof {
                    use_type_invariant(self);
                    lemma_index_of(self.entries(), i as int);
                }
                Some(&self.fields[i].value)
            },
            None => None,
        }
    }

    /// Sets the field named `key` to `value`, whether or not it was there.
    pub fn insert(&mut self, key: String, value: ValueKind)
        ensures
            final(self).entries() == entries_insert(old(self).entries(), key@, value@),
            final(self)@ == old(self)@.insert(key@, value@),
    {
        proof {
            use_type_invariant(&*self);
            lemma_entries_insert(self.entries(), key@, value@);
        }
        let ghost before = self.entries();
        let position = self.position(key.as_str());
        // The fields are taken out and put back, so that the invariant is owed
        // for the finished vector only.
        let mut taken = Event::new();
        core::mem::swap(self, &mut taken);
        let Event { fields } = taken;
        let mut fields = fields;
        match position {
            Some(i) => {
                proof {
                    lemma_index_of(before, i as int);
                }
                fields[i] = Field { key, value };
                assert(fields@.map_values(|f: Field| f@) =~= before.update(
                    i as int,
                    (key@, value@),
                ));
            },
            None => {
                fields.push(Field { key, value });
                assert(fields@.map_values(|f: Field| f@) =~= before.push((key@, value@)));
            },
        }
        *self = Event { fields };
    }

    /// Does the event carry a field besides `message`?
    pub fn is_structured(&self) -> (r: bool)
        ensures
            r == structured(self.entries()),
    {
        let mut i: usize = 0;
        while i < self.fields.len()
            invariant
                i <= self.fields.len(),
                forall|j: int| 0 <= j < i ==> (#[trigger] self.entries()[j]).0 == message_key(),
            decreases self.fields.len() - i,
        {
            if !str_eq(self.fields[i].key.as_str(), "message") {
                assert(self.entries()[i as int].0 != message_key());
                return true;
            }
            i += 1;
        }
        false
    }

    /// All fields, in order.
    pub fn all_fields(&self) -> (r: &Vec<Field>)
        ensures
            r@.map_values(|f: Field| f@) == self.entries(),
    {
        &self.fields
    }
}

/// A field besides `message` is there exactly if the map has a name other than
/// `message`.
pub proof fn lemma_structured_by_map(entries: Seq<(Seq<char>, ValueModel)>)
    ensures
        structured(entries) <==> exists|k: Seq<char>|
            #[trigger] entries_map(entries).contains_key(k) && k != message_key(),
{
    if structured(entries) {
        let i = choose|i: int| 0 <= i < entries.len() && (#[trigger] entries[i]).0 != message_key();
        assert(entries_map(entries).contains_key(entries[i].0));
    }
    if exists|k: Seq<char>| #[trigger] entries_map(entries).contains_key(k) && k != message_key() {
        let k = choose|k: Seq<char>| #[trigger]
            entries_map(entries).contains_key(k) && k != message_key();
        let i = index_of(entries, k);
        assert(entries[i].0 != message_key());
    }
}

} // verus!
