//! Protobuf messages as field lists: a message is a sequence of fields, each
//! a tag with either a varint or a length-delimited byte string. Decoding
//! keeps the varint and length-delimited fields in order and skips fields
//! of the other wire types.

use vstd::prelude::*;
use crate::wire::{
    decode_key, decode_varint, encode_varint, skip_field, read_key, read_varint, write_varint, append_bytes,
    skip_field_at, lemma_varint_bounds, law_varint_roundtrip,
};

verus! {

/// A decoded field: tag, whether it is length-delimited, its varint value
/// (zero for a length-delimited field), and its bytes (empty for a varint).
#[derive(Debug)]
pub struct Field {
    pub tag: u32,
    pub delimited: bool,
    pub value: u64,
    pub bytes: Vec<u8>,
}

pub open spec fn field_view(f: Field) -> (u32, bool, u64, Seq<u8>) {
    (f.tag, f.delimited, f.value, f.bytes@)
}

pub open spec fn fields_view(fs: Seq<Field>) -> Seq<(u32, bool, u64, Seq<u8>)> {
    fs.map_values(|f: Field| field_view(f))
}

/// Decoding the rest `b` of a message after the fields `acc`.
pub open spec fn decode_fields_from(b: Seq<u8>, acc: Seq<(u32, bool, u64, Seq<u8>)>) -> Option<
    Seq<(u32, bool, u64, Seq<u8>)>,
>
    decreases b.len(),
{
    if b.len() == 0 {
        Some(acc)
    } else {
        match decode_key(b) {
            None => None,
            Some((t, w, n)) => if n < 1 || n > b.len() {
                None
            } else {
                let rest = b.skip(n as int);
                if w == 0 {
                    match decode_varint(rest) {
                        None => None,
                        Some((v, m)) => if m < 1 || m > rest.len() {
                            None
                        } else {
                            decode_fields_from(rest.skip(m as int), acc.push((t, false, v, Seq::empty())))
                        },
                    }
                } else if w == 2 {
                    match decode_varint(rest) {
                        None => None,
                        Some((l, m)) => if m + l > rest.len() {
                            None
                        } else {
                            decode_fields_from(
                                rest.skip(m + l),
                                acc.push((t, true, 0u64, rest.subrange(m as int, m + l))),
                            )
                        },
                    }
                } else {
                    match skip_field(rest, w, t, 100) {
                        None => None,
                        Some(k) => if k > rest.len() {
                            None
                        } else {
                            decode_fields_from(rest.skip(k as int), acc)
                        },
                    }
                }
            },
        }
    }
}

/// The varint and length-delimited fields of a message, in order; `None`
/// for bytes that are not a well-formed message.
pub open spec fn decode_fields(b: Seq<u8>) -> Option<Seq<(u32, bool, u64, Seq<u8>)>> {
    decode_fields_from(b, Seq::empty())
}

/// The encoding of one field.
pub open spec fn field_bytes(f: (u32, bool, u64, Seq<u8>)) -> Seq<u8> {
    if f.1 {
        encode_varint((f.0 * 8 + 2) as nat) + encode_varint(f.3.len()) + f.3
    } else {
        encode_varint((f.0 * 8) as nat) + encode_varint(f.2 as nat)
    }
}

/// The encoding of fields one after another.
pub open spec fn fields_bytes(fs: Seq<(u32, bool, u64, Seq<u8>)>) -> Seq<u8>
    decreases fs.len(),
{
    if fs.len() == 0 {
        Seq::empty()
    } else {
        fields_bytes(fs.drop_last()) + field_bytes(fs.last())
    }
}

/// A field that can be written: a tag from 1 whose key fits 32 bits, a
/// zero value when delimited, no bytes when a varint.
pub open spec fn field_ok(f: (u32, bool, u64, Seq<u8>)) -> bool {
    &&& 1 <= f.0 && f.0 * 8 + 2 <= 0xffff_ffff
    &&& f.1 ==> f.2 == 0 && f.3.len() < 0x1_0000_0000_0000_0000
    &&& !f.1 ==> f.3.len() == 0
}

proof fn lemma_encode_varint_nonempty(v: nat)
    ensures
        encode_varint(v).len() >= 1,
    decreases v,
{
    if v >= 128 {
        lemma_encode_varint_nonempty(v / 128);
    }
}

proof fn lemma_decode_one(f: (u32, bool, u64, Seq<u8>), tail: Seq<u8>, acc: Seq<(u32, bool, u64, Seq<u8>)>)
    requires
        field_ok(f),
    ensures
        decode_fields_from(field_bytes(f) + tail, acc) == decode_fields_from(tail, acc.push(f)),
{
    let w: u8 = if f.1 { 2 } else { 0 };
    let k: u64 = (f.0 * 8 + w) as u64;
    let key = encode_varint(k as nat);
    let b = field_bytes(f) + tail;
    lemma_encode_varint_nonempty(k as nat);
    if f.1 {
        let lenb = encode_varint(f.3.len());
        assert(b =~= key + (lenb + f.3 + tail));
        law_varint_roundtrip(k, lenb + f.3 + tail);
        assert(decode_key(b) == Some((f.0, 2u8, key.len())));
        let rest = b.skip(key.len() as int);
        assert(rest =~= lenb + (f.3 + tail));
        law_varint_roundtrip(f.3.len() as u64, f.3 + tail);
        lemma_encode_varint_nonempty(f.3.len());
        assert(rest.subrange(lenb.len() as int, (lenb.len() + f.3.len()) as int) =~= f.3);
        assert(rest.skip((lenb.len() + f.3.len()) as int) =~= tail);
        assert(f == (f.0, true, 0u64, f.3));
    } else {
        let vb = encode_varint(f.2 as nat);
        assert(b =~= key + (vb + tail));
        law_varint_roundtrip(k, vb + tail);
        assert(decode_key(b) == Some((f.0, 0u8, key.len())));
        let rest = b.skip(key.len() as int);
        assert(rest =~= vb + tail);
        law_varint_roundtrip(f.2, tail);
        lemma_encode_varint_nonempty(f.2 as nat);
        assert(rest.skip(vb.len() as int) =~= tail);
        assert(f.3 =~= Seq::<u8>::empty());
    }
}

proof fn lemma_fields_roundtrip(fs: Seq<(u32, bool, u64, Seq<u8>)>, tail: Seq<u8>, acc: Seq<(u32, bool, u64, Seq<u8>)>)
    requires
        forall|i: int| 0 <= i < fs.len() ==> field_ok(#[trigger] fs[i]),
    ensures
        decode_fields_from(fields_bytes(fs) + tail, acc) == decode_fields_from(tail, acc + fs),
    decreases fs.len(),
{
    if fs.len() == 0 {
        assert(fields_bytes(fs) + tail =~= tail);
        assert(acc + fs =~= acc);
    } else {
        let init = fs.drop_last();
        assert(fields_bytes(fs) + tail =~= fields_bytes(init) + (field_bytes(fs.last()) + tail));
        lemma_fields_roundtrip(init, field_bytes(fs.last()) + tail, acc);
        assert(field_ok(fs[fs.len() - 1]));
        lemma_decode_one(fs.last(), tail, acc + init);
        assert((acc + init).push(fs.last()) =~= acc + fs);
    }
}

/// Appending a field appends its encoding.
pub proof fn lemma_fields_push(fs: Seq<(u32, bool, u64, Seq<u8>)>, f: (u32, bool, u64, Seq<u8>))
    ensures
        fields_bytes(fs.push(f)) == fields_bytes(fs) + field_bytes(f),
{
    assert(fs.push(f).drop_last() =~= fs);
}

/// The bytes of every field with `tag`, in order.
pub open spec fn all_with_tag(fs: Seq<(u32, bool, u64, Seq<u8>)>, tag: u32) -> Seq<Seq<u8>>
    decreases fs.len(),
{
    if fs.len() == 0 {
        Seq::empty()
    } else if fs.last().0 == tag {
        all_with_tag(fs.drop_last(), tag).push(fs.last().3)
    } else {
        all_with_tag(fs.drop_last(), tag)
    }
}

/// The bytes of every field with `tag`.
pub fn get_all(fs: &Vec<Field>, tag: u32) -> (r: Vec<Vec<u8>>)
    ensures
        r@.map_values(|b: Vec<u8>| b@) == all_with_tag(fields_view(fs@), tag),
{
    let ghost v = fields_view(fs@);
    let mut r: Vec<Vec<u8>> = Vec::new();
    let mut i: usize = 0;
    assert(v.take(0) =~= Seq::<(u32, bool, u64, Seq<u8>)>::empty());
    while i < fs.len()
        invariant
            i <= fs.len(),
            v == fields_view(fs@),
            r@.map_values(|b: Vec<u8>| b@) == all_with_tag(v.take(i as int), tag),
        decreases fs.len() - i,
    {
        assert(v.take(i + 1).drop_last() =~= v.take(i as int));
        assert(v.take(i + 1).last() == field_view(fs@[i as int]));
        if fs[i].tag == tag {
            let mut b: Vec<u8> = Vec::new();
            append_bytes(&mut b, fs[i].bytes.as_slice());
            let ghost before = r@;
            r.push(b);
            assert(r@.map_values(|b: Vec<u8>| b@) =~= before.map_values(|b: Vec<u8>| b@).push(fs@[i as int].bytes@));
        }
        i += 1;
    }
    assert(v.take(fs.len() as int) =~= v);
    r
}

/// Decoding an encoded field list gives back the fields.
pub proof fn law_fields_roundtrip(fs: Seq<(u32, bool, u64, Seq<u8>)>)
    requires
        forall|i: int| 0 <= i < fs.len() ==> field_ok(#[trigger] fs[i]),
    ensures
        decode_fields(fields_bytes(fs)) == Some(fs),
{
    lemma_fields_roundtrip(fs, Seq::empty(), Seq::empty());
    assert(fields_bytes(fs) + Seq::<u8>::empty() =~= fields_bytes(fs));
    assert(Seq::<(u32, bool, u64, Seq<u8>)>::empty() + fs =~= fs);
}

/// Decodes the fields of a message.
pub fn read_fields(b: &[u8]) -> (r: Option<Vec<Field>>)
    ensures
        match r {
            Some(fs) => decode_fields(b@) == Some(fields_view(fs@)),
            None => decode_fields(b@) is None,
        },
{
    let mut pos: usize = 0;
    let mut out: Vec<Field> = Vec::new();
    assert(b@.skip(0) =~= b@);
    assert(fields_view(out@) =~= Seq::<(u32, bool, u64, Seq<u8>)>::empty());
    while pos < b.len()
        invariant
            pos <= b.len(),
            decode_fields(b@) == decode_fields_from(b@.skip(pos as int), fields_view(out@)),
        decreases b.len() - pos,
    {
        let ghost s = b@.skip(pos as int);
        let ghost before = fields_view(out@);
        let (t, w, n) = match read_key(b, pos) {
            Some(k) => k,
            None => return None,
        };
        let ghost rest = s.skip(n as int);
        assert(rest =~= b@.skip(pos + n));
        proof { lemma_varint_bounds(rest); }
        if w == 0 {
            match read_varint(b, pos + n) {
                None => return None,
                Some((v, m)) => {
                    assert(rest.skip(m as int) =~= b@.skip(pos + n + m));
                    out.push(Field { tag: t, delimited: false, value: v, bytes: Vec::new() });
                    assert(fields_view(out@) =~= before.push((t, false, v, Seq::empty())));
                    pos = pos + n + m;
                },
            }
        } else if w == 2 {
            match read_varint(b, pos + n) {
                None => return None,
                Some((l, m)) => {
                    if l > (b.len() - pos - n - m) as u64 {
                        return None;
                    }
                    let l = l as usize;
                    let mut bytes: Vec<u8> = Vec::new();
                    append_bytes(&mut bytes, &b[pos + n + m..pos + n + m + l]);
                    assert(bytes@ =~= rest.subrange(m as int, m + l));
                    assert(rest.skip(m + l) =~= b@.skip(pos + n + m + l));
                    out.push(Field { tag: t, delimited: true, value: 0, bytes });
                    assert(fields_view(out@) =~= before.push((t, true, 0u64, rest.subrange(m as int, m + l))));
                    pos = pos + n + m + l;
                },
            }
        } else {
            match skip_field_at(b, pos + n, w, t, 100) {
                None => return None,
                Some(k) => {
                    assert(rest.skip(k as int) =~= b@.skip(pos + n + k));
                    pos = pos + n + k;
                },
            }
        }
    }
    assert(b@.skip(pos as int) =~= Seq::<u8>::empty());
    Some(out)
}

/// Appends a varint field.
pub fn put_varint_field(out: &mut Vec<u8>, tag: u32, v: u64)
    requires
        1 <= tag,
        tag * 8 + 2 <= 0xffff_ffff,
    ensures
        final(out)@ == old(out)@ + field_bytes((tag, false, v, Seq::empty())),
{
    let ghost start = out@;
    write_varint(out, (tag as u64) * 8);
    write_varint(out, v);
    assert(out@ =~= start + field_bytes((tag, false, v, Seq::empty())));
}

/// Appends a length-delimited field.
pub fn put_bytes_field(out: &mut Vec<u8>, tag: u32, bytes: &[u8])
    requires
        1 <= tag,
        tag * 8 + 2 <= 0xffff_ffff,
    ensures
        final(out)@ == old(out)@ + field_bytes((tag, true, 0u64, bytes@)),
{
    let ghost start = out@;
    write_varint(out, (tag as u64) * 8 + 2);
    write_varint(out, bytes.len() as u64);
    append_bytes(out, bytes);
    assert(out@ =~= start + field_bytes((tag, true, 0u64, bytes@)));
}

// ---------------------------------------------------------------------------
// Reading fields of a decoded message
// ---------------------------------------------------------------------------

/// Index of the last field with `tag`, or -1.
pub open spec fn last_with_tag(fs: Seq<(u32, bool, u64, Seq<u8>)>, tag: u32) -> int
    decreases fs.len(),
{
    if fs.len() == 0 {
        -1
    } else if fs.last().0 == tag {
        fs.len() - 1
    } else {
        last_with_tag(fs.drop_last(), tag)
    }
}

proof fn lemma_last_with_tag(fs: Seq<(u32, bool, u64, Seq<u8>)>, tag: u32)
    ensures
        -1 <= last_with_tag(fs, tag) < fs.len(),
        last_with_tag(fs, tag) >= 0 ==> fs[last_with_tag(fs, tag)].0 == tag,
    decreases fs.len(),
{
    if fs.len() > 0 && fs.last().0 != tag {
        lemma_last_with_tag(fs.drop_last(), tag);
    }
}

/// Every field with `tag` has the wire kind `delimited`.
pub open spec fn kind_ok(fs: Seq<(u32, bool, u64, Seq<u8>)>, tag: u32, delimited: bool) -> bool {
    forall|i: int| 0 <= i < fs.len() && (#[trigger] fs[i]).0 == tag ==> fs[i].1 == delimited
}

/// The bytes of a length-delimited field: its last occurrence, or empty.
pub open spec fn bytes_field(fs: Seq<(u32, bool, u64, Seq<u8>)>, tag: u32) -> Seq<u8> {
    let i = last_with_tag(fs, tag);
    if i >= 0 { fs[i].3 } else { Seq::empty() }
}

/// The value of a varint field: its last occurrence, or zero.
pub open spec fn varint_field(fs: Seq<(u32, bool, u64, Seq<u8>)>, tag: u32) -> u64 {
    let i = last_with_tag(fs, tag);
    if i >= 0 { fs[i].2 } else { 0 }
}

/// Index of the last field with `tag`.
pub fn find_last(fs: &Vec<Field>, tag: u32) -> (r: Option<usize>)
    ensures
        match r {
            Some(i) => i < fs.len() && last_with_tag(fields_view(fs@), tag) == i,
            None => last_with_tag(fields_view(fs@), tag) == -1,
        },
{
    let ghost v = fields_view(fs@);
    let mut i = fs.len();
    assert(v.take(i as int) =~= v);
    while i > 0
        invariant
            i <= fs.len(),
            v == fields_view(fs@),
            last_with_tag(v, tag) == last_with_tag(v.take(i as int), tag),
        decreases i,
    {
        assert(v.take(i as int).last() == field_view(fs@[i - 1]));
        if fs[i - 1].tag == tag {
            return Some(i - 1);
        }
        assert(v.take(i as int).drop_last() =~= v.take(i - 1));
        i -= 1;
    }
    None
}

/// Whether every field with `tag` has the wire kind `delimited`.
pub fn check_kind(fs: &Vec<Field>, tag: u32, delimited: bool) -> (b: bool)
    ensures
        b == kind_ok(fields_view(fs@), tag, delimited),
{
    let ghost v = fields_view(fs@);
    let mut i: usize = 0;
    while i < fs.len()
        invariant
            i <= fs.len(),
            v == fields_view(fs@),
            forall|j: int| 0 <= j < i && (#[trigger] v[j]).0 == tag ==> v[j].1 == delimited,
        decreases fs.len() - i,
    {
        assert(v[i as int] == field_view(fs@[i as int]));
        if fs[i].tag == tag && fs[i].delimited != delimited {
            return false;
        }
        i += 1;
    }
    true
}

/// The bytes of the length-delimited field `tag` (empty when absent).
pub fn get_bytes(fs: &Vec<Field>, tag: u32) -> (r: Vec<u8>)
    ensures
        r@ == bytes_field(fields_view(fs@), tag),
{
    proof { lemma_last_with_tag(fields_view(fs@), tag); }
    match find_last(fs, tag) {
        Some(i) => {
            let mut r: Vec<u8> = Vec::new();
            append_bytes(&mut r, fs[i].bytes.as_slice());
            assert(fields_view(fs@)[i as int] == field_view(fs@[i as int]));
            r
        },
        None => Vec::new(),
    }
}

/// The value of the varint field `tag` (zero when absent).
pub fn get_varint(fs: &Vec<Field>, tag: u32) -> (r: u64)
    ensures
        r == varint_field(fields_view(fs@), tag),
{
    match find_last(fs, tag) {
        Some(i) => {
            assert(fields_view(fs@)[i as int] == field_view(fs@[i as int]));
            fs[i].value
        },
        None => 0,
    }
}

} // verus!
