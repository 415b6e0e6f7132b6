//! Codec for the binary key/value tree format.
//!
//! A file is the field list of one root object. Each field is a tag byte,
//! a NUL-terminated UTF-8 name, and a payload chosen by the tag; the list
//! ends with the byte `0x08`.

use vstd::prelude::*;
use vstd::utf8::*;

verus! {

broadcast use vstd::seq::group_seq_axioms, vstd::std_specs::vec::group_vec_axioms;

/// Tag of a nested object field.
pub const TAG_OBJECT: u8 = 0x00;

/// Tag of a string field.
pub const TAG_STRING: u8 = 0x01;

/// Tag of a 32-bit integer field.
pub const TAG_INTEGER: u8 = 0x02;

/// Marker that ends an object's field list.
pub const TAG_END: u8 = 0x08;

/// Why a byte sequence could not be decoded. Each variant carries the offset
/// of the item that could not be read.
#[derive(Debug, PartialEq, Eq, Structural)]
pub enum Error {
    /// The item starting at `offset` runs past the end of the input.
    Truncated { offset: usize },
    /// The byte at `offset` should be a tag but is none of the known ones.
    UnknownTag { tag: u8, offset: usize },
    /// The string starting at `offset` is not well-formed UTF-8.
    InvalidUtf8 { offset: usize },
}

/// A value of the tree.
#[derive(Debug)]
pub enum Value {
    Object(Object),
    String(String),
    Integer(u32),
}

/// An ordered list of named values. Names need not be unique.
#[derive(Debug)]
pub struct Object {
    pub values: Vec<(String, Value)>,
}

/// The mathematical content of a [`Value`].
pub enum ValueModel {
    Object(Seq<(Seq<char>, ValueModel)>),
    String(Seq<char>),
    Integer(u32),
}

/// The mathematical content of an [`Object`]: its fields, in order.
pub type ObjectModel = Seq<(Seq<char>, ValueModel)>;

pub open spec fn value_model(v: Value) -> ValueModel
    decreases v,
{
    match v {
        Value::Object(o) => ValueModel::Object(fields_model(o.values@)),
        Value::String(s) => ValueModel::String(s@),
        Value::Integer(i) => ValueModel::Integer(i),
    }
}

pub open spec fn fields_model(s: Seq<(String, Value)>) -> ObjectModel
    decreases s,
{
    if s.len() == 0 {
        Seq::empty()
    } else {
        fields_model(s.subrange(0, s.len() - 1)).push((s.last().0@, value_model(s.last().1)))
    }
}

impl View for Value {
    type V = ValueModel;

    open spec fn view(&self) -> ValueModel {
        value_model(*self)
    }
}

impl View for Object {
    type V = ObjectModel;

    open spec fn view(&self) -> ObjectModel {
        fields_model(self.values@)
    }
}

/// The model of a field list has one entry per field, each the model of
/// that field.
pub proof fn lemma_fields_model(s: Seq<(String, Value)>)
    ensures
        fields_model(s).len() == s.len(),
        forall|i: int|
            0 <= i < s.len() ==> #[trigger] fields_model(s)[i] == (s[i].0@, value_model(s[i].1)),
    decreases s.len(),
{
    if s.len() > 0 {
        lemma_fields_model(s.subrange(0, s.len() - 1));
    }
}

/// Replacing one field replaces its model.
pub proof fn lemma_fields_model_update(s: Seq<(String, Value)>, i: int)
    requires
        0 <= i < s.len(),
    ensures
        forall|e: (String, Value)| #[trigger] fields_model(s.update(i, e)) == fields_model(s).update(i, (e.0@, value_model(e.1))),
{
    assert forall|e: (String, Value)| #[trigger] fields_model(s.update(i, e)) == fields_model(s).update(i, (e.0@, value_model(e.1))) by {
        lemma_fields_model(s);
        lemma_fields_model(s.update(i, e));
        assert(fields_model(s.update(i, e)) =~= fields_model(s).update(i, (e.0@, value_model(e.1))));
    }
}

/// Bytes of a NUL-terminated string.
pub open spec fn encode_str(s: Seq<char>) -> Seq<u8> {
    encode_utf8(s) + seq![0u8]
}

/// The four little-endian bytes of an integer.
pub open spec fn encode_u32(x: u32) -> Seq<u8> {
    seq![(x & 0xff) as u8, ((x >> 8) & 0xff) as u8, ((x >> 16) & 0xff) as u8, ((x >> 24) & 0xff) as u8]
}

/// The integer whose little-endian bytes are `b0`, `b1`, `b2`, `b3`.
pub open spec fn u32_from_le(b0: u8, b1: u8, b2: u8, b3: u8) -> u32 {
    (b0 as u32) | ((b1 as u32) << 8u32) | ((b2 as u32) << 16u32) | ((b3 as u32) << 24u32)
}

/// Bytes of one field: tag, name, payload.
pub open spec fn encode_field(name: Seq<char>, v: ValueModel) -> Seq<u8>
    decreases v,
{
    match v {
        ValueModel::Object(fs) => seq![TAG_OBJECT] + encode_str(name) + encode_fields(fs) + seq![
            TAG_END,
        ],
        ValueModel::String(s) => seq![TAG_STRING] + encode_str(name) + encode_str(s),
        ValueModel::Integer(x) => seq![TAG_INTEGER] + encode_str(name) + encode_u32(x),
    }
}

/// Bytes of a field list, without its end marker.
pub open spec fn encode_fields(fs: ObjectModel) -> Seq<u8>
    decreases fs,
{
    if fs.len() == 0 {
        Seq::empty()
    } else {
        encode_field(fs[0].0, fs[0].1) + encode_fields(fs.subrange(1, fs.len() as int))
    }
}

/// Bytes of an object: its fields, then the end marker.
pub open spec fn encode_object(fs: ObjectModel) -> Seq<u8> {
    encode_fields(fs) + seq![TAG_END]
}

/// Encoding a list with one more field appends that field's bytes.
pub proof fn lemma_encode_fields_push(fs: ObjectModel, name: Seq<char>, v: ValueModel)
    ensures
        encode_fields(fs.push((name, v))) == encode_fields(fs) + encode_field(name, v),
    decreases fs.len(),
{
    let fs2 = fs.push((name, v));
    if fs.len() == 0 {
        assert(fs2.subrange(1, fs2.len() as int) =~= Seq::empty());
        assert(encode_fields(fs2.subrange(1, fs2.len() as int)) == Seq::<u8>::empty());
        assert(fs2[0] == (name, v));
        assert(encode_fields(fs2) =~= encode_fields(fs) + encode_field(name, v));
    } else {
        let tail = fs.subrange(1, fs.len() as int);
        assert(fs2.subrange(1, fs2.len() as int) =~= tail.push((name, v)));
        lemma_encode_fields_push(tail, name, v);
        let head = encode_field(fs[0].0, fs[0].1);
        assert(fs2[0] == fs[0]);
        assert(encode_fields(fs2) == head + encode_fields(tail.push((name, v))));
        assert(encode_fields(fs) == head + encode_fields(tail));
        assert(encode_fields(fs2) =~= encode_fields(fs) + encode_field(name, v));
    }
}

/// Index of the first NUL byte at or after `pos`, or the length of `b`
/// when there is none.
pub open spec fn nul_index(b: Seq<u8>, pos: int) -> int
    decreases b.len() - pos,
{
    if pos >= b.len() {
        b.len() as int
    } else if b[pos] == 0 {
        pos
    } else {
        nul_index(b, pos + 1)
    }
}

/// Measure of how much input is left after `pos`.
pub open spec fn remaining(b: Seq<u8>, pos: int) -> nat {
    if pos < b.len() {
        (b.len() - pos) as nat
    } else {
        0
    }
}

/// Reads a NUL-terminated string at `pos`: its characters and the number
/// of bytes it takes, terminator included.
pub open spec fn decode_str(b: Seq<u8>, pos: int) -> Result<(Seq<char>, nat), Error> {
    let end = nul_index(b, pos);
    if end >= b.len() {
        Err(Error::Truncated { offset: pos as usize })
    } else if !valid_utf8(b.subrange(pos, end)) {
        Err(Error::InvalidUtf8 { offset: pos as usize })
    } else {
        Ok((decode_utf8(b.subrange(pos, end)), (end + 1 - pos) as nat))
    }
}

/// Reads a four-byte little-endian integer at `pos`.
pub open spec fn decode_u32(b: Seq<u8>, pos: int) -> Result<u32, Error> {
    if pos + 4 > b.len() {
        Err(Error::Truncated { offset: pos as usize })
    } else {
        Ok(u32_from_le(b[pos], b[pos + 1], b[pos + 2], b[pos + 3]))
    }
}

/// Reads a field list, end marker included, at `pos`: the fields and the
/// number of bytes they take.
pub open spec fn decode_fields(b: Seq<u8>, pos: int) -> Result<(ObjectModel, nat), Error>
    decreases remaining(b, pos),
{
    if pos < 0 || pos >= b.len() {
        Err(Error::Truncated { offset: pos as usize })
    } else {
        let tag = b[pos];
        if tag == TAG_END {
            Ok((Seq::empty(), 1))
        } else if tag != TAG_OBJECT && tag != TAG_STRING && tag != TAG_INTEGER {
            Err(Error::UnknownTag { tag, offset: pos as usize })
        } else {
            match decode_str(b, pos + 1) {
                Err(e) => Err(e),
                Ok((name, n1)) => {
                    let after_name = pos + 1 + n1;
                    let value: Result<(ValueModel, nat), Error> = if tag == TAG_OBJECT {
                        match decode_fields(b, after_name) {
                            Ok((fs, n)) => Ok((ValueModel::Object(fs), n)),
                            Err(e) => Err(e),
                        }
                    } else if tag == TAG_STRING {
                        match decode_str(b, after_name) {
                            Ok((s, n)) => Ok((ValueModel::String(s), n)),
                            Err(e) => Err(e),
                        }
                    } else {
                        match decode_u32(b, after_name) {
                            Ok(x) => Ok((ValueModel::Integer(x), 4nat)),
                            Err(e) => Err(e),
                        }
                    };
                    match value {
                        Err(e) => Err(e),
                        Ok((v, n2)) => match decode_fields(b, after_name + n2) {
                            Err(e) => Err(e),
                            Ok((rest, n3)) => Ok((seq![(name, v)] + rest, 1 + n1 + n2 + n3)),
                        },
                    }
                },
            }
        }
    }
}

/// The object a whole file holds. An empty file holds the empty object;
/// bytes after the root's end marker are not read.
pub open spec fn decode(b: Seq<u8>) -> Result<ObjectModel, Error> {
    if b.len() == 0 {
        Ok(Seq::empty())
    } else {
        match decode_fields(b, 0) {
            Ok((fs, _)) => Ok(fs),
            Err(e) => Err(e),
        }
    }
}

/// Index of the first field at or after `i` whose name is `key`, or -1
/// when there is none.
pub open spec fn key_index_from(fs: ObjectModel, key: Seq<char>, i: int) -> int
    decreases fs.len() - i,
{
    if i < 0 || i >= fs.len() {
        -1
    } else if fs[i].0 == key {
        i
    } else {
        key_index_from(fs, key, i + 1)
    }
}

/// Index of the first field whose name is `key`, or -1 when there is none.
pub open spec fn key_index(fs: ObjectModel, key: Seq<char>) -> int {
    key_index_from(fs, key, 0)
}

/// The first index found from `i` on is a field with that name, and no
/// earlier field from `i` on has it; -1 means no field from `i` on has it.
pub proof fn lemma_key_index_from(fs: ObjectModel, key: Seq<char>, i: int)
    requires
        0 <= i,
    ensures
        key_index_from(fs, key, i) == -1 || (i <= key_index_from(fs, key, i) < fs.len()
            && fs[key_index_from(fs, key, i)].0 == key),
        key_index_from(fs, key, i) == -1 ==> forall|j: int| i <= j < fs.len() ==> fs[j].0 != key,
        forall|j: int| i <= j < key_index_from(fs, key, i) ==> fs[j].0 != key,
    decreases fs.len() - i,
{
    if i < fs.len() && fs[i].0 != key {
        lemma_key_index_from(fs, key, i + 1);
    }
}

/// The fields with the first one named `key` given the value `v`, or with
/// `(key, v)` appended when none is named so.
pub open spec fn with_field(fs: ObjectModel, key: Seq<char>, v: ValueModel) -> ObjectModel {
    let i = key_index(fs, key);
    if i >= 0 {
        fs.update(i, (key, v))
    } else {
        fs.push((key, v))
    }
}

impl Object {
    /// Position of the first field named `key`.
    pub fn find(&self, key: &String) -> (r: Option<usize>)
        ensures
            match r {
                Some(i) => i as int == key_index(self@, key@),
                None => key_index(self@, key@) == -1,
            },
    {
        proof {
            lemma_fields_model(self.values@);
        }
        let mut i: usize = 0;
        while i < self.values.len()
            invariant
                i <= self.values@.len(),
                self@.len() == self.values@.len(),
                forall|j: int| 0 <= j < self.values@.len() ==> #[trigger] self@[j].0 == self.values@[j].0@,
                key_index(self@, key@) == key_index_from(self@, key@, i as int),
            decreases self.values@.len() - i,
        {
            if self.values[i].0 == *key {
                return Some(i);
            }
            i = i + 1;
        }
        None
    }

    /// The value of the first field named `key`.
    pub fn value(&self, key: &str) -> (r: Option<&Value>)
        ensures
            match r {
                Some(v) => key_index(self@, key@) >= 0 && v@ == self@[key_index(self@, key@)].1,
                None => key_index(self@, key@) == -1,
            },
    {
        let k = key.to_owned();
        match self.find(&k) {
            Some(i) => {
                proof {
                    lemma_fields_model(self.values@);
                    lemma_key_index_from(self@, key@, 0);
                }
                Some(&self.values[i].1)
            },
            None => None,
        }
    }

    /// The value of the first field named `key`, to change in place.
    pub fn value_mut(&mut self, key: &str) -> (r: Option<&mut Value>)
        ensures
            match r {
                Some(v) => key_index(old(self)@, key@) >= 0
                    && (*v)@ == old(self)@[key_index(old(self)@, key@)].1
                    && final(self)@ == old(self)@.update(key_index(old(self)@, key@), (key@, (*final(v))@)),
                None => key_index(old(self)@, key@) == -1 && final(self)@ == old(self)@,
            },
    {
        let k = key.to_owned();
        match self.find(&k) {
            Some(i) => {
                proof {
                    lemma_fields_model(self.values@);
                    lemma_key_index_from(self@, key@, 0);
                    lemma_fields_model_update(self.values@, i as int);
                }
                Some(&mut self.values[i].1)
            },
            None => None,
        }
    }

    /// Gives the first field named `key` the value `value`, in place; when
    /// there is no such field, appends one.
    pub fn replace_or_append(&mut self, key: String, value: Value)
        ensures
            final(self)@ == with_field(old(self)@, key@, value@),
    {
        match self.find(&key) {
            Some(i) => {
                proof {
                    lemma_fields_model(self.values@);
                    lemma_key_index_from(self@, key@, 0);
                    lemma_fields_model_update(self.values@, i as int);
                }
                let slot = &mut self.values[i];
                *slot = (key, value);
            },
            None => self.set_value(key, value),
        }
    }

    /// An object with no fields.
    pub fn new() -> (r: Self)
        ensures
            r@ == Seq::<(Seq<char>, ValueModel)>::empty(),
    {
        Object { values: Vec::new() }
    }

    /// Appends a field at the end; earlier fields with the same name stay.
    pub fn set_value(&mut self, key: String, value: Value)
        ensures
            final(self)@ == old(self)@.push((key@, value@)),
    {
        self.values.push((key, value));
        proof {
            assert(final(self).values@.subrange(0, final(self).values@.len() - 1) =~= old(self).values@);
        }
    }
}

#[verifier::external_type_specification]
#[verifier::external_body]
pub struct ExFromUtf8Error(std::string::FromUtf8Error);

/// Relies on `String::from_utf8`: it accepts exactly the well-formed UTF-8
/// byte sequences and yields the characters they encode.
#[verifier::external_body]
pub(crate) fn string_from_utf8(v: Vec<u8>) -> (r: Result<String, std::string::FromUtf8Error>)
    ensures
        match r {
            Ok(s) => valid_utf8(v@) && s@ == decode_utf8(v@),
            Err(_) => !valid_utf8(v@),
        },
{
    String::from_utf8(v)
}

/// Reads the NUL-terminated string at `*offset` and moves `*offset` past
/// its terminator. On an error `*offset` is left as it was.
pub fn parse_string(bytes: &[u8], offset: &mut usize) -> (r: Result<String, Error>)
    ensures
        match decode_str(bytes@, *old(offset) as int) {
            Ok((s, n)) => r is Ok && r->Ok_0@ == s && *final(offset) == *old(offset) + n,
            Err(e) => r == Err::<String, Error>(e) && *final(offset) == *old(offset),
        },
        r is Ok ==> *final(offset) <= bytes@.len(),
{
    let start = *offset;
    let mut end = start;
    while end < bytes.len() && bytes[end] != 0
        invariant
            start <= end,
            nul_index(bytes@, start as int) == nul_index(bytes@, end as int),
        decreases bytes@.len() - end,
    {
        end = end + 1;
    }
    if end >= bytes.len() {
        return Err(Error::Truncated { offset: start });
    }
    let mut text: Vec<u8> = Vec::new();
    let mut i = start;
    while i < end
        invariant
            start <= i <= end < bytes@.len(),
            text@ == bytes@.subrange(start as int, i as int),
        decreases end - i,
    {
        text.push(bytes[i]);
        i = i + 1;
        assert(text@ =~= bytes@.subrange(start as int, i as int));
    }
    match string_from_utf8(text) {
        Ok(s) => {
            *offset = end + 1;
            Ok(s)
        },
        Err(_) => Err(Error::InvalidUtf8 { offset: start }),
    }
}

/// Reads the four-byte little-endian integer at `*offset` and moves
/// `*offset` past it. On an error `*offset` is left as it was.
pub fn parse_int(bytes: &[u8], offset: &mut usize) -> (r: Result<u32, Error>)
    ensures
        match decode_u32(bytes@, *old(offset) as int) {
            Ok(x) => r == Ok::<u32, Error>(x) && *final(offset) == *old(offset) + 4,
            Err(e) => r == Err::<u32, Error>(e) && *final(offset) == *old(offset),
        },
        r is Ok ==> *final(offset) <= bytes@.len(),
{
    let p = *offset;
    if bytes.len() < 4 || p > bytes.len() - 4 {
        return Err(Error::Truncated { offset: p });
    }
    let x = (bytes[p] as u32) | ((bytes[p + 1] as u32) << 8u32) | ((bytes[p + 2] as u32) << 16u32)
        | ((bytes[p + 3] as u32) << 24u32);
    *offset = p + 4;
    Ok(x)
}

/// What decoding from `start` gives when the fields `acc` have been read
/// and decoding from `cur` gives `r`.
pub open spec fn resume(acc: ObjectModel, start: int, cur: int, r: Result<(ObjectModel, nat), Error>) -> Result<(ObjectModel, nat), Error> {
    match r {
        Ok((rest, n)) => Ok((acc + rest, (cur - start + n) as nat)),
        Err(e) => Err(e),
    }
}

/// Resuming after one more field is resuming with that field appended.
proof fn lemma_resume_push(acc: ObjectModel, e: (Seq<char>, ValueModel), start: int, cur: int, p: int, r: Result<(ObjectModel, nat), Error>)
    requires
        start <= cur <= p,
    ensures
        resume(acc, start, cur, resume(seq![e], cur, p, r)) == resume(acc.push(e), start, p, r),
{
    match r {
        Ok((rest, n)) => {
            assert(acc + (seq![e] + rest) =~= acc.push(e) + rest);
        },
        Err(_) => {},
    }
}

/// One field read at `cur`, followed by whatever comes after it.
pub(crate) proof fn lemma_decode_fields_step(b: Seq<u8>, cur: int, name: Seq<char>, n1: nat, v: ValueModel, n2: nat)
    requires
        0 <= cur < b.len(),
        b[cur] == TAG_OBJECT || b[cur] == TAG_STRING || b[cur] == TAG_INTEGER,
        decode_str(b, cur + 1) == Ok::<(Seq<char>, nat), Error>((name, n1)),
        b[cur] == TAG_OBJECT ==> v is Object && decode_fields(b, cur + 1 + n1) == Ok::<(ObjectModel, nat), Error>((v->Object_0, n2)),
        b[cur] == TAG_STRING ==> v is String && decode_str(b, cur + 1 + n1) == Ok::<(Seq<char>, nat), Error>((v->String_0, n2)),
        b[cur] == TAG_INTEGER ==> v is Integer && decode_u32(b, cur + 1 + n1) == Ok::<u32, Error>(v->Integer_0) && n2 == 4,
    ensures
        decode_fields(b, cur) == resume(seq![(name, v)], cur, cur + 1 + n1 + n2, decode_fields(b, cur + 1 + n1 + n2)),
{
    let p = cur + 1 + n1 + n2;
    match decode_fields(b, p) {
        Ok((rest, n3)) => {
            assert((p - cur + n3) as nat == 1 + n1 + n2 + n3);
        },
        Err(e) => {},
    }
}

/// Reads the field list at `*offset`, up to and including its end marker,
/// and moves `*offset` past it.
pub fn parse_object(bytes: &[u8], offset: &mut usize) -> (r: Result<Object, Error>)
    ensures
        match decode_fields(bytes@, *old(offset) as int) {
            Ok((fs, n)) => r is Ok && r->Ok_0@ == fs && *final(offset) == *old(offset) + n
                && *final(offset) <= bytes@.len(),
            Err(e) => r == Err::<Object, Error>(e),
        },
    decreases remaining(bytes@, *old(offset) as int),
{
    let start = *offset;
    let mut cur = start;
    let mut obj = Object::new();
    proof {
        match decode_fields(bytes@, start as int) {
            Ok((rest, n)) => {
                assert(obj@ + rest =~= rest);
            },
            Err(e) => {},
        }
    }
    loop
        invariant
            start == *old(offset),
            *offset == start,
            start <= cur,
            start < cur ==> cur <= bytes@.len(),
            decode_fields(bytes@, start as int) == resume(obj@, start as int, cur as int, decode_fields(bytes@, cur as int)),
        decreases remaining(bytes@, cur as int),
    {
        if cur >= bytes.len() {
            assert(decode_fields(bytes@, cur as int) == Err::<(ObjectModel, nat), Error>(Error::Truncated { offset: cur }));
            return Err(Error::Truncated { offset: cur });
        }
        let tag = bytes[cur];
        if tag == TAG_END {
            assert(decode_fields(bytes@, cur as int) == Ok::<(ObjectModel, nat), Error>((Seq::empty(), 1nat)));
            *offset = cur + 1;
            assert(obj@ + Seq::<(Seq<char>, ValueModel)>::empty() =~= obj@);
            return Ok(obj);
        }
        if tag != TAG_OBJECT && tag != TAG_STRING && tag != TAG_INTEGER {
            assert(decode_fields(bytes@, cur as int) == Err::<(ObjectModel, nat), Error>(Error::UnknownTag { tag, offset: cur }));
            return Err(Error::UnknownTag { tag, offset: cur });
        }
        let mut p = cur + 1;
        let name = match parse_string(bytes, &mut p) {
            Ok(s) => s,
            Err(e) => return Err(e),
        };
        let ghost after_name = p;
        let value = if tag == TAG_OBJECT {
            match parse_object(bytes, &mut p) {
                Ok(o) => Value::Object(o),
                Err(e) => return Err(e),
            }
        } else if tag == TAG_STRING {
            match parse_string(bytes, &mut p) {
                Ok(s) => Value::String(s),
                Err(e) => return Err(e),
            }
        } else {
            match parse_int(bytes, &mut p) {
                Ok(x) => Value::Integer(x),
                Err(e) => return Err(e),
            }
        };
        let ghost entry = (name@, value@);
        let ghost before = obj@;
        proof {
            lemma_decode_fields_step(bytes@, cur as int, name@, (after_name - cur - 1) as nat, value@, (p - after_name) as nat);
        }
        obj.set_value(name, value);
        proof {
            lemma_resume_push(before, entry, start as int, cur as int, p as int, decode_fields(bytes@, p as int));
        }
        cur = p;
    }
}

/// Decodes a whole file. An empty file is the empty object.
pub fn parse(bytes: &[u8]) -> (r: Result<Object, Error>)
    ensures
        match decode(bytes@) {
            Ok(fs) => r is Ok && r->Ok_0@ == fs,
            Err(e) => r == Err::<Object, Error>(e),
        },
{
    if bytes.len() == 0 {
        return Ok(Object::new());
    }
    let mut offset: usize = 0;
    parse_object(bytes, &mut offset)
}

/// Appends the bytes of `bytes` to `buffer`.
fn push_bytes(buffer: &mut Vec<u8>, bytes: &[u8])
    ensures
        final(buffer)@ == old(buffer)@ + bytes@,
{
    let mut i: usize = 0;
    while i < bytes.len()
        invariant
            i <= bytes@.len(),
            buffer@ == old(buffer)@ + bytes@.subrange(0, i as int),
        decreases bytes@.len() - i,
    {
        buffer.push(bytes[i]);
        i = i + 1;
        assert(buffer@ =~= old(buffer)@ + bytes@.subrange(0, i as int));
    }
    assert(bytes@.subrange(0, i as int) =~= bytes@);
}

/// Appends `s` as a NUL-terminated string.
fn write_string(buffer: &mut Vec<u8>, s: &String)
    ensures
        final(buffer)@ == old(buffer)@ + encode_str(s@),
{
    push_bytes(buffer, s.as_str().as_bytes());
    buffer.push(0u8);
    assert(buffer@ =~= old(buffer)@ + encode_str(s@));
}

/// Appends the four little-endian bytes of `i`.
fn write_integer(buffer: &mut Vec<u8>, i: u32)
    ensures
        final(buffer)@ == old(buffer)@ + encode_u32(i),
{
    buffer.push((i & 0xff) as u8);
    buffer.push(((i >> 8) & 0xff) as u8);
    buffer.push(((i >> 16) & 0xff) as u8);
    buffer.push(((i >> 24) & 0xff) as u8);
    assert(buffer@ =~= old(buffer)@ + encode_u32(i));
}

/// Appends the fields of `obj`, in order, and the end marker.
fn write_object(buffer: &mut Vec<u8>, obj: &Object)
    ensures
        final(buffer)@ == old(buffer)@ + encode_object(obj@),
    decreases obj,
{
    proof {
        lemma_fields_model(obj.values@);
    }
    let mut i: usize = 0;
    while i < obj.values.len()
        invariant
            i <= obj.values@.len(),
            obj@.len() == obj.values@.len(),
            forall|j: int|
                0 <= j < obj.values@.len() ==> #[trigger] obj@[j] == (
                obj.values@[j].0@,
                value_model(obj.values@[j].1),
            ),
            buffer@ == old(buffer)@ + encode_fields(obj@.subrange(0, i as int)),
        decreases obj.values@.len() - i,
    {
        let entry = &obj.values[i];
        let ghost before = buffer@;
        match &entry.1 {
            Value::Object(o) => {
                assert(decreases_to!(obj => o)) by {
                    assert(decreases_to!(obj.values => obj.values[i as int]));
                }
                buffer.push(TAG_OBJECT);
                write_string(buffer, &entry.0);
                write_object(buffer, o);
            },
            Value::String(s) => {
                buffer.push(TAG_STRING);
                write_string(buffer, &entry.0);
                write_string(buffer, s);
            },
            Value::Integer(n) => {
                buffer.push(TAG_INTEGER);
                write_string(buffer, &entry.0);
                write_integer(buffer, *n);
            },
        }
        proof {
            assert(buffer@ =~= before + encode_field(obj@[i as int].0, obj@[i as int].1));
            assert(obj@.subrange(0, i + 1) =~= obj@.subrange(0, i as int).push(obj@[i as int]));
            lemma_encode_fields_push(obj@.subrange(0, i as int), obj@[i as int].0, obj@[i as int].1);
        }
        i = i + 1;
    }
    assert(obj@.subrange(0, i as int) =~= obj@);
    buffer.push(TAG_END);
    assert(buffer@ =~= old(buffer)@ + encode_object(obj@));
}

/// Encodes `obj` as a complete file.
pub fn write(obj: &Object) -> (r: Vec<u8>)
    ensures
        r@ == encode_object(obj@),
{
    let mut buffer: Vec<u8> = Vec::new();
    write_object(&mut buffer, obj);
    assert(buffer@ =~= encode_object(obj@));
    buffer
}

} // verus!
