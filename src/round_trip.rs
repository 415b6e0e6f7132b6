//! Decoding undoes encoding.

use vstd::prelude::*;
use vstd::utf8::*;
use crate::vdf::{
    decode, decode_fields, decode_str, decode_u32, encode_field, encode_fields, encode_object,
    encode_str, encode_u32, lemma_decode_fields_step, nul_index, u32_from_le, ObjectModel, ValueModel, TAG_END,
    TAG_INTEGER, TAG_OBJECT, TAG_STRING,
};

verus! {

broadcast use vstd::seq::group_seq_axioms, group_utf8_lib;

/// No character of `s` is NUL.
pub open spec fn nul_free(s: Seq<char>) -> bool {
    forall|i: int| 0 <= i < s.len() ==> (#[trigger] s[i]) as u32 != 0
}

/// Every name and every string in the field list is NUL-free, at every
/// depth: the fields that the format can carry.
pub open spec fn nul_free_fields(fs: ObjectModel) -> bool
    decreases fs,
{
    if fs.len() == 0 {
        true
    } else {
        nul_free(fs[0].0) && match fs[0].1 {
            ValueModel::Object(inner) => nul_free_fields(inner),
            ValueModel::String(s) => nul_free(s),
            ValueModel::Integer(_) => true,
        } && nul_free_fields(fs.subrange(1, fs.len() as int))
    }
}

proof fn lemma_encode_scalar_nonzero(c: u32)
    requires
        c != 0,
    ensures
        forall|i: int| 0 <= i < encode_scalar(c).len() ==> #[trigger] encode_scalar(c)[i] != 0,
{
    let b1 = (c & 0x7F) as u8;
    let l2 = 0xC0u8 | ((c >> 6) & 0x1F) as u8;
    let l3 = 0xE0u8 | ((c >> 12) & 0x0F) as u8;
    let l4 = 0xF0u8 | ((c >> 18) & 0x7) as u8;
    let c1 = 0x80u8 | (c & 0x3F) as u8;
    let c2 = 0x80u8 | ((c >> 6) & 0x3F) as u8;
    let c3 = 0x80u8 | ((c >> 12) & 0x3F) as u8;
    assert(0 < c <= 0x7F ==> (c & 0x7F) as u8 != 0) by (bit_vector);
    assert(0xC0u8 | ((c >> 6) & 0x1F) as u8 != 0) by (bit_vector);
    assert(0xE0u8 | ((c >> 12) & 0x0F) as u8 != 0) by (bit_vector);
    assert(0xF0u8 | ((c >> 18) & 0x7) as u8 != 0) by (bit_vector);
    assert(0x80u8 | (c & 0x3F) as u8 != 0) by (bit_vector);
    assert(0x80u8 | ((c >> 6) & 0x3F) as u8 != 0) by (bit_vector);
    assert(0x80u8 | ((c >> 12) & 0x3F) as u8 != 0) by (bit_vector);
    if has_width_1_encoding(c) {
        assert(encode_scalar(c) =~= seq![b1]);
    } else if has_width_2_encoding(c) {
        assert(encode_scalar(c) =~= seq![l2, c1]);
    } else if has_width_3_encoding(c) {
        assert(encode_scalar(c) =~= seq![l3, c2, c1]);
    } else {
        assert(encode_scalar(c) =~= seq![l4, c3, c2, c1]);
    }
}

/// The UTF-8 bytes of a NUL-free string hold no zero byte.
proof fn lemma_encode_utf8_nonzero(s: Seq<char>)
    requires
        nul_free(s),
    ensures
        forall|i: int| 0 <= i < encode_utf8(s).len() ==> #[trigger] encode_utf8(s)[i] != 0,
    decreases s.len(),
{
    if s.len() > 0 {
        assert(s[0] as u32 != 0);
        lemma_encode_scalar_nonzero(s[0] as u32);
        lemma_encode_utf8_nonzero(s.drop_first());
        let h = encode_scalar(s[0] as u32);
        let t = encode_utf8(s.drop_first());
        assert(encode_utf8(s) == h + t);
        assert forall|i: int| 0 <= i < encode_utf8(s).len() implies #[trigger] encode_utf8(s)[i] != 0 by {
            if i < h.len() {
                assert(encode_utf8(s)[i] == h[i]);
            } else {
                assert(encode_utf8(s)[i] == t[i - h.len()]);
            }
        }
    }
}

/// The first NUL at or after `pos` is found where no byte before it is zero.
proof fn lemma_nul_index_at(b: Seq<u8>, pos: int, end: int)
    requires
        0 <= pos <= end < b.len(),
        b[end] == 0,
        forall|j: int| pos <= j < end ==> b[j] != 0,
    ensures
        nul_index(b, pos) == end,
    decreases end - pos,
{
    if pos < end {
        lemma_nul_index_at(b, pos + 1, end);
    }
}

/// A NUL-free string written at `pos` is read back whole.
proof fn lemma_decode_encode_str(b: Seq<u8>, pos: int, s: Seq<char>)
    requires
        nul_free(s),
        0 <= pos,
        pos + encode_str(s).len() <= b.len(),
        b.subrange(pos, pos + encode_str(s).len()) == encode_str(s),
    ensures
        decode_str(b, pos) == Ok::<(Seq<char>, nat), crate::vdf::Error>((s, encode_str(s).len())),
{
    let u = encode_utf8(s);
    let end = pos + u.len();
    lemma_encode_utf8_nonzero(s);
    assert forall|j: int| pos <= j < end implies b[j] != 0 by {
        assert(b[j] == b.subrange(pos, pos + encode_str(s).len())[j - pos]);
    }
    assert(b[end] == b.subrange(pos, pos + encode_str(s).len())[u.len() as int]);
    lemma_nul_index_at(b, pos, end);
    assert(b.subrange(pos, end) =~= u);
}

/// A little-endian integer written at `pos` is read back.
proof fn lemma_decode_encode_u32(b: Seq<u8>, pos: int, x: u32)
    requires
        0 <= pos,
        pos + 4 <= b.len(),
        b.subrange(pos, pos + 4) == encode_u32(x),
    ensures
        decode_u32(b, pos) == Ok::<u32, crate::vdf::Error>(x),
{
    assert(b[pos] == encode_u32(x)[0]);
    assert(b[pos + 1] == encode_u32(x)[1]);
    assert(b[pos + 2] == encode_u32(x)[2]);
    assert(b[pos + 3] == encode_u32(x)[3]);
    assert(u32_from_le(
        (x & 0xff) as u8,
        ((x >> 8) & 0xff) as u8,
        ((x >> 16) & 0xff) as u8,
        ((x >> 24) & 0xff) as u8,
    ) == x) by (bit_vector);
}

/// Tag byte of a value.
pub open spec fn tag_of(v: ValueModel) -> u8 {
    match v {
        ValueModel::Object(_) => TAG_OBJECT,
        ValueModel::String(_) => TAG_STRING,
        ValueModel::Integer(_) => TAG_INTEGER,
    }
}

/// Payload bytes of a value.
pub open spec fn payload(v: ValueModel) -> Seq<u8> {
    match v {
        ValueModel::Object(fs) => encode_object(fs),
        ValueModel::String(s) => encode_str(s),
        ValueModel::Integer(x) => encode_u32(x),
    }
}

/// Where the parts of the first field of `fs` lie, when the encoding of
/// `fs` stands at `pos`.
proof fn lemma_split_first_field(b: Seq<u8>, pos: int, fs: ObjectModel)
    requires
        fs.len() > 0,
        0 <= pos,
        pos + encode_object(fs).len() <= b.len(),
        b.subrange(pos, pos + encode_object(fs).len()) == encode_object(fs),
    ensures
        ({
            let name = fs[0].0;
            let v = fs[0].1;
            let after_name = pos + 1 + encode_str(name).len();
            let after_value = after_name + payload(v).len();
            &&& b[pos] == tag_of(v)
            &&& b.subrange(pos + 1, after_name) == encode_str(name)
            &&& b.subrange(after_name, after_value) == payload(v)
            &&& after_value + encode_object(fs.subrange(1, fs.len() as int)).len() == pos + encode_object(fs).len()
            &&& b.subrange(after_value, pos + encode_object(fs).len()) == encode_object(fs.subrange(1, fs.len() as int))
        }),
{
    let e = encode_object(fs);
    let name = fs[0].0;
    let v = fs[0].1;
    let tail = fs.subrange(1, fs.len() as int);
    let ns = encode_str(name);
    let pl = payload(v);
    let f = encode_field(name, v);
    assert(f =~= seq![tag_of(v)] + ns + pl);
    assert(e =~= f + encode_object(tail));
    let after_name = pos + 1 + ns.len();
    let after_value = after_name + pl.len();
    assert(b[pos] == e[0]);
    assert(b.subrange(pos + 1, after_name) =~= e.subrange(1, 1 + ns.len() as int));
    assert(e.subrange(1, 1 + ns.len() as int) =~= ns);
    assert(b.subrange(after_name, after_value) =~= e.subrange(1 + ns.len() as int, f.len() as int));
    assert(e.subrange(1 + ns.len() as int, f.len() as int) =~= pl);
    assert(b.subrange(after_value, pos + e.len()) =~= e.subrange(f.len() as int, e.len() as int));
    assert(e.subrange(f.len() as int, e.len() as int) =~= encode_object(tail));
}

/// A field list written at `pos` is read back, with the number of bytes
/// it takes.
proof fn lemma_decode_encode_fields(b: Seq<u8>, pos: int, fs: ObjectModel)
    requires
        nul_free_fields(fs),
        0 <= pos,
        pos + encode_object(fs).len() <= b.len(),
        b.subrange(pos, pos + encode_object(fs).len()) == encode_object(fs),
    ensures
        decode_fields(b, pos) == Ok::<(ObjectModel, nat), crate::vdf::Error>((fs, encode_object(fs).len())),
    decreases fs,
{
    if fs.len() == 0 {
        assert(encode_object(fs) =~= seq![TAG_END]);
        assert(b[pos] == encode_object(fs)[0]);
        assert(fs =~= Seq::empty());
    } else {
        let name = fs[0].0;
        let v = fs[0].1;
        let tail = fs.subrange(1, fs.len() as int);
        let ns = encode_str(name);
        let after_name = pos + 1 + ns.len();
        let after_value = after_name + payload(v).len();
        lemma_split_first_field(b, pos, fs);
        lemma_decode_encode_str(b, pos + 1, name);
        match v {
            ValueModel::Object(inner) => {
                lemma_decode_encode_fields(b, after_name, inner);
            },
            ValueModel::String(s) => {
                lemma_decode_encode_str(b, after_name, s);
            },
            ValueModel::Integer(x) => {
                lemma_decode_encode_u32(b, after_name, x);
            },
        }
        lemma_decode_encode_fields(b, after_value, tail);
        lemma_decode_fields_step(b, pos, name, ns.len(), v, payload(v).len());
        assert(seq![(name, v)] + tail =~= fs);
        assert(encode_object(fs).len() == 1 + ns.len() + payload(v).len() + encode_object(tail).len());
    }
}

/// Decoding the encoding of an object gives that object back, field for
/// field, for every object whose names and strings hold no NUL character.
pub proof fn lemma_round_trip(fs: ObjectModel)
    requires
        nul_free_fields(fs),
    ensures
        decode(encode_object(fs)) == Ok::<ObjectModel, crate::vdf::Error>(fs),
{
    let e = encode_object(fs);
    assert(e.subrange(0, e.len() as int) =~= e);
    lemma_decode_encode_fields(e, 0, fs);
}

/// Bytes that encoding produced are reproduced exactly by decoding them
/// and encoding the result.
pub proof fn lemma_byte_stability(b: Seq<u8>, fs: ObjectModel)
    requires
        nul_free_fields(fs),
        b == encode_object(fs),
    ensures
        decode(b) is Ok,
        encode_object(decode(b)->Ok_0) == b,
{
    lemma_round_trip(fs);
}

} // verus!
