//! Entries, their fields, and the messages handed to a consumer.

use vstd::prelude::*;
use crate::id::EntryId;

verus! {

/// A byte string equal to `b` as a sequence.
pub fn copy_bytes(b: &Vec<u8>) -> (r: Vec<u8>)
    ensures
        r@ == b@,
{
    let mut r: Vec<u8> = Vec::new();
    let mut i: usize = 0;
    while i < b.len()
        invariant
            i <= b.len(),
            r@ == b@.subrange(0, i as int),
        decreases b.len() - i,
    {
        r.push(b[i]);
        i += 1;
        proof {
            assert(r@ =~= b@.subrange(0, i as int));
        }
    }
    proof {
        assert(r@ =~= b@);
    }
    r
}

/// Whether two byte strings are equal.
pub fn bytes_eq(a: &[u8], b: &[u8]) -> (r: bool)
    ensures
        r == (a@ == b@),
{
    if a.len() != b.len() {
        return false;
    }
    let mut i: usize = 0;
    while i < a.len()
        invariant
            a@.len() == b@.len(),
            i <= a.len(),
            a@.subrange(0, i as int) == b@.subrange(0, i as int),
        decreases a.len() - i,
    {
        if a[i] != b[i] {
            assert(a@[i as int] != b@[i as int]);
            return false;
        }
        i += 1;
        proof {
            assert(a@.subrange(0, i as int) =~= a@.subrange(0, i as int - 1).push(a@[i - 1]));
            assert(b@.subrange(0, i as int) =~= b@.subrange(0, i as int - 1).push(b@[i - 1]));
        }
    }
    proof {
        assert(a@ =~= a@.subrange(0, i as int));
        assert(b@ =~= b@.subrange(0, i as int));
    }
    true
}

/// Whether `p` is a prefix of `s`.
pub open spec fn is_prefix(p: Seq<u8>, s: Seq<u8>) -> bool {
    p.len() <= s.len() && s.subrange(0, p.len() as int) == p
}

/// Whether `s` starts with `p`.
pub fn starts_with(s: &[u8], p: &[u8]) -> (r: bool)
    ensures
        r == is_prefix(p@, s@),
{
    if p.len() > s.len() {
        return false;
    }
    let mut i: usize = 0;
    while i < p.len()
        invariant
            p@.len() <= s@.len(),
            i <= p.len(),
            s@.subrange(0, i as int) == p@.subrange(0, i as int),
        decreases p.len() - i,
    {
        if s[i] != p[i] {
            assert(s@.subrange(0, p@.len() as int)[i as int] != p@[i as int]);
            return false;
        }
        i += 1;
        proof {
            assert(s@.subrange(0, i as int) =~= s@.subrange(0, i as int - 1).push(s@[i - 1]));
            assert(p@.subrange(0, i as int) =~= p@.subrange(0, i as int - 1).push(p@[i - 1]));
        }
    }
    proof {
        assert(p@ =~= p@.subrange(0, i as int));
    }
    true
}

/// One named field of an entry.
#[derive(Debug)]
pub struct Field {
    pub name: Vec<u8>,
    pub value: Vec<u8>,
}

impl View for Field {
    type V = (Seq<u8>, Seq<u8>);

    open spec fn view(&self) -> (Seq<u8>, Seq<u8>) {
        (self.name@, self.value@)
    }
}

impl Field {
    /// A field with the given name and value.
    pub fn new(name: Vec<u8>, value: Vec<u8>) -> (r: Field)
        ensures
            r.name@ == name@,
            r.value@ == value@,
    {
        Field { name, value }
    }

    /// A field equal to this one.
    pub fn copy(&self) -> (r: Field)
        ensures
            r@ == self@,
    {
        Field { name: copy_bytes(&self.name), value: copy_bytes(&self.value) }
    }
}

/// The fields as name/value pairs.
pub open spec fn fields_view(fs: Seq<Field>) -> Seq<(Seq<u8>, Seq<u8>)> {
    fs.map_values(|f: Field| f@)
}

/// A list of fields equal to `fs`.
pub fn copy_fields(fs: &Vec<Field>) -> (r: Vec<Field>)
    ensures
        fields_view(r@) == fields_view(fs@),
{
    let mut r: Vec<Field> = Vec::new();
    let mut i: usize = 0;
    while i < fs.len()
        invariant
            i <= fs.len(),
            fields_view(r@) == fields_view(fs@.subrange(0, i as int)),
        decreases fs.len() - i,
    {
        let ghost before = r@;
        let f = fs[i].copy();
        r.push(f);
        i += 1;
        proof {
            assert(fields_view(r@) =~= fields_view(before).push(fs@[i - 1]@));
            assert(fields_view(fs@.subrange(0, i as int)) =~= fields_view(
                fs@.subrange(0, i - 1),
            ).push(fs@[i - 1]@));
        }
    }
    proof {
        assert(fs@ =~= fs@.subrange(0, i as int));
    }
    r
}

/// The value of the first field named `name`, if any.
pub open spec fn field_value(fs: Seq<(Seq<u8>, Seq<u8>)>, name: Seq<u8>) -> Option<Seq<u8>>
    decreases fs.len(),
{
    if fs.len() == 0 {
        None
    } else if fs[0].0 == name {
        Some(fs[0].1)
    } else {
        field_value(fs.drop_first(), name)
    }
}

/// One entry of a stream: its id and its fields.
#[derive(Debug)]
pub struct Entry {
    pub id: EntryId,
    pub fields: Vec<Field>,
}

impl Entry {
    /// An entry equal to this one.
    pub fn copy(&self) -> (r: Entry)
        ensures
            r.id == self.id,
            fields_view(r.fields@) == fields_view(self.fields@),
    {
        Entry { id: self.id, fields: copy_fields(&self.fields) }
    }
}

/// The entries a read returned from one stream.
#[derive(Debug)]
pub struct StreamEntries {
    pub stream: Vec<u8>,
    pub entries: Vec<Entry>,
}

/// The name of the field that carries an event's payload: `data`.
pub open spec fn data_key() -> Seq<u8> {
    seq![100u8, 97, 116, 97]
}

/// The name of the field that carries an event's deadline: `timeout_at`.
pub open spec fn timeout_key() -> Seq<u8> {
    seq![116u8, 105, 109, 101, 111, 117, 116, 95, 97, 116]
}

/// The bytes `data`.
pub fn data_key_bytes() -> (r: Vec<u8>)
    ensures
        r@ == data_key(),
{
    let r: Vec<u8> = vec![100u8, 97, 116, 97];
    proof {
        assert(r@ =~= data_key());
    }
    r
}

/// The bytes `timeout_at`.
pub fn timeout_key_bytes() -> (r: Vec<u8>)
    ensures
        r@ == timeout_key(),
{
    let r: Vec<u8> = vec![116u8, 105, 109, 101, 111, 117, 116, 95, 97, 116];
    proof {
        assert(r@ =~= timeout_key());
    }
    r
}

/// The value of the first field named `name` in `fs`.
pub fn find_field(fs: &Vec<Field>, name: &Vec<u8>) -> (r: Option<Vec<u8>>)
    ensures
        match r {
            Some(v) => field_value(fields_view(fs@), name@) == Some(v@),
            None => field_value(fields_view(fs@), name@) is None,
        },
{
    let mut i: usize = 0;
    proof {
        assert(fields_view(fs@).subrange(0, fs@.len() as int) =~= fields_view(fs@));
    }
    while i < fs.len()
        invariant
            i <= fs.len(),
            field_value(fields_view(fs@), name@) == field_value(
                fields_view(fs@).subrange(i as int, fs@.len() as int),
                name@,
            ),
        decreases fs.len() - i,
    {
        let ghost rest = fields_view(fs@).subrange(i as int, fs@.len() as int);
        proof {
            assert(rest.drop_first() =~= fields_view(fs@).subrange(i + 1, fs@.len() as int));
        }
        if bytes_eq(fs[i].name.as_slice(), name.as_slice()) {
            return Some(copy_bytes(&fs[i].value));
        }
        i += 1;
    }
    None
}

/// An entry handed to a consumer, with what it takes to acknowledge it.
#[derive(Debug)]
pub struct Message {
    pub id: EntryId,
    /// The stream the entry was read from.
    pub event: Vec<u8>,
    /// The consumer group that claimed it.
    pub group: Vec<u8>,
    pub fields: Vec<Field>,
}

impl Message {
    /// The payload: the value of the `data` field.
    pub fn data(&self) -> (r: Option<Vec<u8>>)
        ensures
            match r {
                Some(v) => field_value(fields_view(self.fields@), data_key()) == Some(v@),
                None => field_value(fields_view(self.fields@), data_key()) is None,
            },
    {
        let key = data_key_bytes();
        find_field(&self.fields, &key)
    }

    /// The name of the stream the entry belongs to.
    pub fn event(&self) -> (r: &Vec<u8>)
        ensures
            r@ == self.event@,
    {
        &self.event
    }
}

} // verus!
