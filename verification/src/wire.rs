//! Protobuf wire format: base-128 varints, field keys, field skipping, and
//! the `Envelope` frame that multiplexes every WebSocket channel.
//!
//! Decoding follows the protobuf rules for a message with an enum field 1
//! (`channel`) and a bytes field 2 (`payload`): fields may come in any order
//! and repeat (the last one wins), unknown fields (groups included, nested at
//! most 100 deep) are skipped, and a varint is at most ten bytes.

use vstd::prelude::*;

verus! {

// ---------------------------------------------------------------------------
// Varints
// ---------------------------------------------------------------------------

/// `128^n`.
pub open spec fn p128(n: nat) -> nat
    decreases n,
{
    if n == 0 {
        1
    } else {
        128 * p128((n - 1) as nat)
    }
}

/// The little-endian base-128 number whose digits are the low seven bits of
/// each byte.
pub open spec fn digits_value(s: Seq<u8>) -> nat
    decreases s.len(),
{
    if s.len() == 0 {
        0
    } else {
        (s[0] % 128) as nat + 128 * digits_value(s.drop_first())
    }
}

/// Index of the first byte without the continuation bit, among the first
/// ten bytes from `i` on.
pub open spec fn varint_end_from(b: Seq<u8>, i: nat) -> Option<nat>
    decreases 10 - i,
{
    if i >= 10 || i >= b.len() {
        None
    } else if b[i as int] < 128 {
        Some(i)
    } else {
        varint_end_from(b, i + 1)
    }
}

/// A varint at the start of `b`: its value and its length in bytes. Longer
/// than ten bytes, unterminated, or above `u64::MAX` is refused.
pub open spec fn decode_varint(b: Seq<u8>) -> Option<(u64, nat)> {
    match varint_end_from(b, 0) {
        None => None,
        Some(t) => if t == 9 && b[9] >= 2 {
            None
        } else {
            Some((digits_value(b.take((t + 1) as int)) as u64, t + 1))
        },
    }
}

/// The shortest varint encoding of `v`.
pub open spec fn encode_varint(v: nat) -> Seq<u8>
    decreases v,
{
    if v < 128 {
        seq![v as u8]
    } else {
        seq![(v % 128 + 128) as u8] + encode_varint(v / 128)
    }
}

proof fn lemma_end_from_bounds(b: Seq<u8>, i: nat)
    ensures
        varint_end_from(b, i) matches Some(t) ==> i <= t < 10 && t < b.len() && b[t as int]
            < 128 && (forall|j: int| i <= j < t ==> b[j] >= 128),
        varint_end_from(b, i) is None ==> forall|j: int|
            i <= j < b.len() && j < 10 ==> b[j] >= 128,
    decreases 10 - i,
{
    if !(i >= 10 || i >= b.len()) && b[i as int] >= 128 {
        lemma_end_from_bounds(b, i + 1);
    }
}

/// A decoded varint lies within `b` and has positive length.
pub proof fn lemma_varint_bounds(b: Seq<u8>)
    ensures
        decode_varint(b) matches Some((v, n)) ==> 1 <= n <= 10 && n <= b.len(),
{
    lemma_end_from_bounds(b, 0);
}

proof fn lemma_digits_bound(s: Seq<u8>)
    ensures
        digits_value(s) < p128(s.len()),
    decreases s.len(),
{
    if s.len() > 0 {
        lemma_digits_bound(s.drop_first());
    }
}

proof fn lemma_digits_push(s: Seq<u8>, d: u8)
    ensures
        digits_value(s.push(d)) == digits_value(s) + (d % 128) as nat * p128(s.len()),
    decreases s.len(),
{
    if s.len() == 0 {
        assert(s.push(d).drop_first() =~= Seq::<u8>::empty());
        assert(s.push(d)[0] == d);
        assert(digits_value(Seq::<u8>::empty()) == 0);
        assert(p128(0) == 1);
        assert(digits_value(s.push(d)) == (d % 128) as nat + 128 * digits_value(Seq::<u8>::empty()));
    } else {
        assert(s.push(d).drop_first() =~= s.drop_first().push(d));
        assert(s.push(d)[0] == s[0]);
        lemma_digits_push(s.drop_first(), d);
        assert(128 * ((d % 128) as nat * p128(s.drop_first().len())) == (d % 128) as nat * p128(
            s.len(),
        )) by (nonlinear_arith)
            requires
                p128(s.len()) == 128 * p128(s.drop_first().len()),
        ;
    }
}

proof fn lemma_p128_facts()
    ensures
        p128(9) == 0x8000_0000_0000_0000,
{
    reveal_with_fuel(p128, 11);
}

/// Decoded varint values fit in 64 bits (the `as u64` above never truncates).
pub proof fn lemma_varint_value(b: Seq<u8>)
    ensures
        decode_varint(b) matches Some((v, n)) ==> v as nat == digits_value(b.take(n as int)),
{
    lemma_end_from_bounds(b, 0);
    if let Some(t) = varint_end_from(b, 0) {
        if !(t == 9 && b[9] >= 2) {
            let s = b.take((t + 1) as int);
            lemma_p128_facts();
            if t < 9 {
                lemma_digits_bound(s);
                lemma_p128_mono(s.len(), 9);
            } else {
                let pre = b.take(9);
                assert(s =~= pre.push(b[9]));
                lemma_digits_push(pre, b[9]);
                lemma_digits_bound(pre);
                assert(digits_value(s) < 0x1_0000_0000_0000_0000) by (nonlinear_arith)
                    requires
                        digits_value(s) == digits_value(pre) + (b[9] % 128) as nat * p128(9),
                        digits_value(pre) < p128(9),
                        b[9] < 2,
                        p128(9) == 0x8000_0000_0000_0000,
                ;
            }
        }
    }
}

proof fn lemma_p128_mono(a: nat, b: nat)
    requires
        a <= b,
    ensures
        p128(a) <= p128(b),
    decreases b,
{
    if a < b {
        lemma_p128_mono(a, (b - 1) as nat);
    }
}

/// Reads the varint that starts at `pos` (`prost::encoding::decode_varint`).
pub fn read_varint(b: &[u8], pos: usize) -> (r: Option<(u64, usize)>)
    requires
        pos <= b.len(),
    ensures
        match r {
            Some((v, n)) => decode_varint(b@.skip(pos as int)) == Some((v, n as nat)),
            None => decode_varint(b@.skip(pos as int)) is None,
        },
{
    let ghost s = b@.skip(pos as int);
    proof {
        lemma_end_from_bounds(s, 0);
    }
    // Find the terminating byte.
    let mut i: usize = 0;
    let avail = b.len() - pos;
    while i < 10 && i < avail
        invariant
            avail == b.len() - pos,
            s == b@.skip(pos as int),
            i <= 10,
            varint_end_from(s, 0) == varint_end_from(s, i as nat),
        ensures
            i < 10 && i < avail ==> b@[pos + i] < 128,
            varint_end_from(s, 0) == varint_end_from(s, i as nat),
            i <= 10,
        decreases 10 - i,
    {
        if b[pos + i] < 128 {
            break;
        }
        i += 1;
    }
    if i >= 10 || i >= avail {
        return None;
    }
    let t = i;
    assert(s[t as int] == b@[pos + t]);
    assert(varint_end_from(s, 0) == Some(t as nat));
    if t == 9 && b[pos + 9] >= 2 {
        return None;
    }
    proof {
        lemma_varint_value(s);
    }
    // Horner evaluation from the most significant digit.
    let mut v: u128 = 0;
    let mut j: usize = t + 1;
    let ghost digits = s.take((t + 1) as int);
    assert(digits.skip((t + 1) as int) =~= Seq::<u8>::empty());
    while j > 0
        invariant
            j <= t + 1,
            t < 10,
            t < avail,
            avail == b.len() - pos,
            digits == b@.skip(pos as int).take((t + 1) as int),
            v as nat == digits_value(digits.skip(j as int)),
            digits_value(digits.skip(j as int)) < p128((t + 1 - j) as nat),
        decreases j,
    {
        j -= 1;
        let d = b[pos + j];
        proof {
            assert(digits.skip(j as int).drop_first() =~= digits.skip(j + 1));
            assert(digits.skip(j as int)[0] == d);
            lemma_p128_mono((t + 1 - (j + 1)) as nat, 9);
            lemma_p128_facts();
            lemma_digits_bound(digits.skip(j as int));
        }
        v = (d % 128) as u128 + 128 * v;
    }
    assert(digits.skip(0) =~= digits);
    Some((v as u64, t + 1))
}

/// The shortest varint encoding of `v` (`prost::encoding::encode_varint`).
pub fn write_varint(out: &mut Vec<u8>, v: u64)
    ensures
        final(out)@ == old(out)@ + encode_varint(v as nat),
{
    let mut x = v;
    let ghost start = out@;
    while x >= 128
        invariant
            start + encode_varint(v as nat) == out@ + encode_varint(x as nat),
        decreases x,
    {
        let ghost before = out@;
        out.push((x % 128 + 128) as u8);
        assert(before + encode_varint(x as nat) =~= out@ + encode_varint((x / 128) as nat));
        x = x / 128;
    }
    out.push(x as u8);
    assert(encode_varint(x as nat) =~= seq![x as u8]);
}

/// Appends `b` to `out`.
pub fn append_bytes(out: &mut Vec<u8>, b: &[u8])
    ensures
        final(out)@ == old(out)@ + b@,
{
    let mut i: usize = 0;
    let ghost start = out@;
    while i < b.len()
        invariant
            i <= b.len(),
            out@ == start + b@.take(i as int),
        decreases b.len() - i,
    {
        out.push(b[i]);
        assert(b@.take(i + 1) =~= b@.take(i as int).push(b@[i as int]));
        i += 1;
    }
    assert(b@.take(b.len() as int) =~= b@);
}

// ---------------------------------------------------------------------------
// Varint encoding properties
// ---------------------------------------------------------------------------

proof fn lemma_encode_shape(v: nat)
    ensures
        encode_varint(v).len() >= 1,
        forall|i: int|
            0 <= i < encode_varint(v).len() - 1 ==> #[trigger] encode_varint(v)[i] >= 128,
        encode_varint(v).last() < 128,
        digits_value(encode_varint(v)) == v,
        encode_varint(v).len() > 1 ==> v >= p128((encode_varint(v).len() - 1) as nat),
    decreases v,
{
    let e = encode_varint(v);
    if v < 128 {
        assert(e.drop_first() =~= Seq::<u8>::empty());
        assert(e[0] == v as u8);
        assert(digits_value(e) == (e[0] % 128) as nat + 128 * digits_value(e.drop_first()));
    } else {
        let e2 = encode_varint(v / 128);
        lemma_encode_shape(v / 128);
        assert(e.drop_first() =~= e2);
        assert(e[0] == (v % 128 + 128) as u8);
        assert(e[0] % 128 == v % 128);
        assert(digits_value(e) == (e[0] % 128) as nat + 128 * digits_value(e.drop_first()));
        assert(v == v % 128 + 128 * (v / 128));
        assert forall|i: int| 0 <= i < e.len() - 1 implies #[trigger] e[i] >= 128 by {
            if i > 0 {
                assert(e[i] == e2[i - 1]);
            }
        }
        assert(e.last() == e2.last());
        if e2.len() > 1 {
            assert(v >= 128 * p128((e2.len() - 1) as nat)) by (nonlinear_arith)
                requires
                    v / 128 >= p128((e2.len() - 1) as nat),
                    v >= 128,
            ;
        }
    }
}

proof fn lemma_end_in_encoding(e: Seq<u8>, rest: Seq<u8>, i: nat)
    requires
        e.len() >= 1,
        e.len() <= 10,
        i <= e.len() - 1,
        forall|j: int| 0 <= j < e.len() - 1 ==> #[trigger] e[j] >= 128,
        e.last() < 128,
    ensures
        varint_end_from(e + rest, i) == Some((e.len() - 1) as nat),
    decreases e.len() - i,
{
    let b = e + rest;
    if i < e.len() - 1 {
        assert(b[i as int] == e[i as int]);
        lemma_end_in_encoding(e, rest, i + 1);
    } else {
        assert(b[i as int] == e.last());
    }
}

/// The encoding of any `u64` decodes back to it, whatever follows it.
pub proof fn law_varint_roundtrip(v: u64, rest: Seq<u8>)
    ensures
        decode_varint(encode_varint(v as nat) + rest) == Some((v, encode_varint(v as nat).len())),
{
    let e = encode_varint(v as nat);
    lemma_encode_shape(v as nat);
    lemma_p128_facts();
    if e.len() > 10 {
        lemma_p128_mono(10, (e.len() - 1) as nat);
        assert(p128(10) == 128 * p128(9));
        assert(false);
    }
    lemma_end_in_encoding(e, rest, 0);
    let b = e + rest;
    assert(b.take(e.len() as int) =~= e);
    if e.len() == 10 {
        let pre = e.take(9);
        assert(e =~= pre.push(e[9]));
        lemma_digits_push(pre, e[9]);
        assert(b[9] == e[9]);
        assert(e[9] < 2) by (nonlinear_arith)
            requires
                (v as nat) == digits_value(pre) + (e[9] % 128) as nat * p128(9),
                p128(9) == 0x8000_0000_0000_0000,
                e[9] < 128,
                v < 0x1_0000_0000_0000_0000,
        ;
    }
}

// ---------------------------------------------------------------------------
// Field keys and skipping unknown fields
// ---------------------------------------------------------------------------

/// A field key at the start of `b`: `(tag, wire type, length)`. Keys above
/// `u32::MAX`, wire types 6 and 7, and tag 0 are refused.
pub open spec fn decode_key(b: Seq<u8>) -> Option<(u32, u8, nat)> {
    match decode_varint(b) {
        None => None,
        Some((k, n)) => if k > 0xffff_ffff || k % 8 == 6 || k % 8 == 7 || k / 8 < 1 {
            None
        } else {
            Some(((k / 8) as u32, (k % 8) as u8, n))
        },
    }
}

/// The number of bytes of an unknown field's value (after its key) at the
/// start of `b`, given its wire type and tag; groups nest at most `limit`
/// deep (`prost::encoding::skip_field`).
pub open spec fn skip_field(b: Seq<u8>, wire: u8, tag: u32, limit: nat) -> Option<nat>
    decreases b.len(), 1nat,
{
    if limit == 0 {
        None
    } else if wire == 0 {
        match decode_varint(b) {
            Some((_, n)) => Some(n),
            None => None,
        }
    } else if wire == 1 {
        if 8 <= b.len() {
            Some(8)
        } else {
            None
        }
    } else if wire == 2 {
        match decode_varint(b) {
            Some((l, n)) => if n + l <= b.len() {
                Some((n + l) as nat)
            } else {
                None
            },
            None => None,
        }
    } else if wire == 3 {
        skip_group(b, tag, (limit - 1) as nat)
    } else if wire == 5 {
        if 4 <= b.len() {
            Some(4)
        } else {
            None
        }
    } else {
        None
    }
}

/// The bytes of a group's fields up to and including its matching end key.
pub open spec fn skip_group(b: Seq<u8>, tag: u32, limit: nat) -> Option<nat>
    decreases b.len(), 0nat,
{
    match decode_key(b) {
        None => None,
        Some((t, w, n)) => if n < 1 || n > b.len() {
            None
        } else if w == 4 {
            if t == tag {
                Some(n)
            } else {
                None
            }
        } else {
            match skip_field(b.skip(n as int), w, t, limit) {
                None => None,
                Some(m) => if n + m > b.len() {
                    None
                } else {
                    match skip_group(b.skip((n + m) as int), tag, limit) {
                        None => None,
                        Some(k) => Some(n + m + k),
                    }
                },
            }
        },
    }
}

/// Reads the field key at `pos` (`prost::encoding::decode_key`).
pub fn read_key(b: &[u8], pos: usize) -> (r: Option<(u32, u8, usize)>)
    requires
        pos <= b.len(),
    ensures
        match r {
            Some((t, w, n)) => decode_key(b@.skip(pos as int)) == Some((t, w, n as nat)) && 1
                <= n && pos + n <= b.len(),
            None => decode_key(b@.skip(pos as int)) is None,
        },
{
    proof { lemma_varint_bounds(b@.skip(pos as int)); }
    match read_varint(b, pos) {
        None => None,
        Some((k, n)) => {
            if k > 0xffff_ffff || k % 8 == 6 || k % 8 == 7 || k / 8 < 1 {
                None
            } else {
                Some(((k / 8) as u32, (k % 8) as u8, n))
            }
        },
    }
}

/// Skips an unknown field's value at `pos`; returns its length.
pub fn skip_field_at(b: &[u8], pos: usize, wire: u8, tag: u32, limit: usize) -> (r: Option<
    usize,
>)
    requires
        pos <= b.len(),
    ensures
        match r {
            Some(m) => skip_field(b@.skip(pos as int), wire, tag, limit as nat) == Some(m as nat)
                && pos + m <= b.len(),
            None => skip_field(b@.skip(pos as int), wire, tag, limit as nat) is None,
        },
    decreases b.len() - pos, 1nat,
{
    let ghost s = b@.skip(pos as int);
    proof { lemma_varint_bounds(s); }
    let avail = b.len() - pos;
    if limit == 0 {
        None
    } else if wire == 0 {
        match read_varint(b, pos) {
            Some((_, n)) => Some(n),
            None => None,
        }
    } else if wire == 1 {
        if 8 <= avail {
            Some(8)
        } else {
            None
        }
    } else if wire == 2 {
        match read_varint(b, pos) {
            Some((l, n)) => {
                if l <= (avail - n) as u64 {
                    Some(n + l as usize)
                } else {
                    None
                }
            },
            None => None,
        }
    } else if wire == 3 {
        skip_group_at(b, pos, tag, limit - 1)
    } else if wire == 5 {
        if 4 <= avail {
            Some(4)
        } else {
            None
        }
    } else {
        None
    }
}

/// Skips a group's fields at `pos` up to its end key; returns the length.
pub fn skip_group_at(b: &[u8], pos: usize, tag: u32, limit: usize) -> (r: Option<usize>)
    requires
        pos <= b.len(),
    ensures
        match r {
            Some(m) => skip_group(b@.skip(pos as int), tag, limit as nat) == Some(m as nat) && pos
                + m <= b.len(),
            None => skip_group(b@.skip(pos as int), tag, limit as nat) is None,
        },
    decreases b.len() - pos, 0nat,
{
    let ghost s = b@.skip(pos as int);
    match read_key(b, pos) {
        None => None,
        Some((t, w, n)) => {
            if w == 4 {
                if t == tag {
                    Some(n)
                } else {
                    None
                }
            } else {
                match skip_field_at(b, pos + n, w, t, limit) {
                    None => {
                        assert(s.skip(n as int) =~= b@.skip(pos + n));
                        None
                    },
                    Some(m) => {
                        assert(s.skip(n as int) =~= b@.skip(pos + n));
                        assert(s.skip((n + m) as int) =~= b@.skip(pos + n + m));
                        match skip_group_at(b, pos + n + m, tag, limit) {
                            None => None,
                            Some(k) => Some(n + m + k),
                        }
                    },
                }
            }
        },
    }
}

// ---------------------------------------------------------------------------
// Int32 fields
// ---------------------------------------------------------------------------

/// An `i32` as the `u64` its varint carries (sign-extended when negative).
pub open spec fn i32_wire(c: i32) -> nat {
    if c >= 0 {
        c as nat
    } else {
        (c + 0x1_0000_0000_0000_0000) as nat
    }
}

/// A varint value read into an `i32` field: its low 32 bits, two's complement.
pub open spec fn wire_i32(v: u64) -> i32 {
    let lo = v as int % 0x1_0000_0000;
    if lo >= 0x8000_0000 {
        (lo - 0x1_0000_0000) as i32
    } else {
        lo as i32
    }
}

fn i32_to_wire(c: i32) -> (v: u64)
    ensures
        v as nat == i32_wire(c),
{
    if c >= 0 {
        c as u64
    } else {
        let m = (-(c as i64) - 1) as u64;
        0xffff_ffff_ffff_ffffu64 - m
    }
}

fn wire_to_i32(v: u64) -> (c: i32)
    ensures
        c == wire_i32(v),
{
    let lo = v % 0x1_0000_0000;
    if lo >= 0x8000_0000 {
        (lo as i64 - 0x1_0000_0000) as i32
    } else {
        lo as i32
    }
}

proof fn lemma_i32_wire_roundtrip(c: i32)
    ensures
        i32_wire(c) < 0x1_0000_0000_0000_0000,
        wire_i32(i32_wire(c) as u64) == c,
{
    if c < 0 {
        let v = (c + 0x1_0000_0000_0000_0000) as int;
        assert(v % 0x1_0000_0000 == c + 0x1_0000_0000) by (nonlinear_arith)
            requires
                v == c + 0x1_0000_0000_0000_0000,
                -0x8000_0000 <= c < 0,
        ;
    }
}

// ---------------------------------------------------------------------------
// Envelope
// ---------------------------------------------------------------------------

/// The logical channels multiplexed over one WebSocket.
#[derive(Debug, Clone, Copy, PartialEq, Eq)]
pub enum Channel {
    Unspecified,
    Control,
    Echo,
    Sync,
    Awareness,
    Translation,
    Notification,
}

/// The wire number of each channel.
pub open spec fn channel_code(c: Channel) -> i32 {
    match c {
        Channel::Unspecified => 0,
        Channel::Control => 1,
        Channel::Echo => 2,
        Channel::Sync => 3,
        Channel::Awareness => 4,
        Channel::Translation => 5,
        Channel::Notification => 6,
    }
}

impl Channel {
    /// The channel's wire number.
    pub fn code(self) -> (n: i32)
        ensures
            n == channel_code(self),
    {
        match self {
            Channel::Unspecified => 0,
            Channel::Control => 1,
            Channel::Echo => 2,
            Channel::Sync => 3,
            Channel::Awareness => 4,
            Channel::Translation => 5,
            Channel::Notification => 6,
        }
    }

    /// The channel with a wire number, if any (`Channel::try_from`).
    pub fn from_code(n: i32) -> (r: Option<Channel>)
        ensures
            match r {
                Some(c) => channel_code(c) == n,
                None => forall|c: Channel| channel_code(c) != n,
            },
    {
        if n == 0 {
            Some(Channel::Unspecified)
        } else if n == 1 {
            Some(Channel::Control)
        } else if n == 2 {
            Some(Channel::Echo)
        } else if n == 3 {
            Some(Channel::Sync)
        } else if n == 4 {
            Some(Channel::Awareness)
        } else if n == 5 {
            Some(Channel::Translation)
        } else if n == 6 {
            Some(Channel::Notification)
        } else {
            None
        }
    }
}

/// One WebSocket frame: a channel number and an opaque payload.
#[derive(Debug, Clone, PartialEq, Eq)]
pub struct Envelope {
    pub channel: i32,
    pub payload: Vec<u8>,
}

/// A frame that is not a well-formed envelope.
#[derive(Debug, Clone, PartialEq, Eq)]
pub struct WireError;

/// The protobuf encoding of an envelope: field 1 (varint) unless the channel
/// is 0, then field 2 (length-delimited) unless the payload is empty.
pub open spec fn envelope_bytes(channel: i32, payload: Seq<u8>) -> Seq<u8> {
    (if channel == 0 {
        Seq::<u8>::empty()
    } else {
        seq![0x08u8] + encode_varint(i32_wire(channel))
    }) + (if payload.len() == 0 {
        Seq::<u8>::empty()
    } else {
        seq![0x12u8] + encode_varint(payload.len()) + payload
    })
}

/// Decoding the remaining fields `b` of an envelope read so far as
/// `(channel, payload)`.
pub open spec fn decode_envelope_fields(b: Seq<u8>, channel: i32, payload: Seq<u8>) -> Option<
    (i32, Seq<u8>),
>
    decreases b.len(),
{
    if b.len() == 0 {
        Some((channel, payload))
    } else {
        match decode_key(b) {
            None => None,
            Some((t, w, n)) => if n < 1 || n > b.len() {
                None
            } else {
                let rest = b.skip(n as int);
                if t == 1 {
                    if w != 0 {
                        None
                    } else {
                        match decode_varint(rest) {
                            None => None,
                            Some((v, m)) => if m < 1 || m > rest.len() {
                                None
                            } else {
                                decode_envelope_fields(rest.skip(m as int), wire_i32(v), payload)
                            },
                        }
                    }
                } else if t == 2 {
                    if w != 2 {
                        None
                    } else {
                        match decode_varint(rest) {
                            None => None,
                            Some((l, m)) => if m + l > rest.len() {
                                None
                            } else {
                                decode_envelope_fields(
                                    rest.skip(m + l),
                                    channel,
                                    rest.subrange(m as int, m + l),
                                )
                            },
                        }
                    }
                } else {
                    match skip_field(rest, w, t, 100) {
                        None => None,
                        Some(k) => if k > rest.len() {
                            None
                        } else {
                            decode_envelope_fields(rest.skip(k as int), channel, payload)
                        },
                    }
                }
            },
        }
    }
}

/// An envelope decoded from a whole frame.
pub open spec fn decode_envelope(b: Seq<u8>) -> Option<(i32, Seq<u8>)> {
    decode_envelope_fields(b, 0, Seq::empty())
}

impl View for Envelope {
    type V = (i32, Seq<u8>);

    open spec fn view(&self) -> (i32, Seq<u8>) {
        (self.channel, self.payload@)
    }
}

impl Envelope {
    pub fn new(channel: Channel, payload: Vec<u8>) -> (e: Self)
        ensures
            e@ == (channel_code(channel), payload@),
    {
        Envelope { channel: channel.code(), payload }
    }

    /// A control-channel envelope carrying an encoded control message.
    pub fn control(payload: Vec<u8>) -> (e: Self)
        ensures
            e@ == (channel_code(Channel::Control), payload@),
    {
        Envelope::new(Channel::Control, payload)
    }

    /// The frame's bytes.
    pub fn encode_frame(&self) -> (out: Vec<u8>)
        ensures
            out@ == envelope_bytes(self.channel, self.payload@),
    {
        let mut out: Vec<u8> = Vec::new();
        if self.channel != 0 {
            out.push(0x08);
            write_varint(&mut out, i32_to_wire(self.channel));
        }
        if self.payload.len() > 0 {
            out.push(0x12);
            write_varint(&mut out, self.payload.len() as u64);
            append_bytes(&mut out, self.payload.as_slice());
        }
        proof {
            let a = if self.channel == 0 {
                Seq::<u8>::empty()
            } else {
                seq![0x08u8] + encode_varint(i32_wire(self.channel))
            };
            let p = self.payload@;
            if p.len() == 0 {
                assert(out@ =~= a + Seq::<u8>::empty());
            } else {
                assert(out@ =~= a + (seq![0x12u8] + encode_varint(p.len()) + p));
            }
        }
        out
    }

    /// Decodes a whole frame; unknown fields are skipped.
    pub fn decode_frame(bytes: &[u8]) -> (r: Result<Self, WireError>)
        ensures
            match r {
                Ok(e) => decode_envelope(bytes@) == Some(e@),
                Err(_) => decode_envelope(bytes@) is None,
            },
    {
        let mut pos: usize = 0;
        let mut channel: i32 = 0;
        let mut payload_at: usize = 0;
        let mut payload_len: usize = 0;
        assert(bytes@.skip(0) =~= bytes@);
        assert(bytes@.subrange(0, 0) =~= Seq::<u8>::empty());
        while pos < bytes.len()
            invariant
                pos <= bytes.len(),
                payload_at + payload_len <= bytes.len(),
                decode_envelope(bytes@) == decode_envelope_fields(
                    bytes@.skip(pos as int),
                    channel,
                    bytes@.subrange(payload_at as int, (payload_at + payload_len) as int),
                ),
            decreases bytes.len() - pos,
        {
            let ghost b = bytes@.skip(pos as int);
            let (t, w, n) = match read_key(bytes, pos) {
                Some(k) => k,
                None => return Err(WireError),
            };
            let ghost rest = b.skip(n as int);
            assert(rest =~= bytes@.skip(pos + n));
            proof { lemma_varint_bounds(rest); }
            if t == 1 {
                if w != 0 {
                    return Err(WireError);
                }
                match read_varint(bytes, pos + n) {
                    None => return Err(WireError),
                    Some((v, m)) => {
                        assert(rest.skip(m as int) =~= bytes@.skip(pos + n + m));
                        channel = wire_to_i32(v);
                        pos = pos + n + m;
                    },
                }
            } else if t == 2 {
                if w != 2 {
                    return Err(WireError);
                }
                match read_varint(bytes, pos + n) {
                    None => return Err(WireError),
                    Some((l, m)) => {
                        if l > (bytes.len() - pos - n - m) as u64 {
                            return Err(WireError);
                        }
                        let l = l as usize;
                        assert(rest.skip(m + l) =~= bytes@.skip(pos + n + m + l));
                        assert(rest.subrange(m as int, m + l) =~= bytes@.subrange(
                            pos + n + m,
                            pos + n + m + l,
                        ));
                        payload_at = pos + n + m;
                        payload_len = l;
                        pos = pos + n + m + l;
                    },
                }
            } else {
                match skip_field_at(bytes, pos + n, w, t, 100) {
                    None => return Err(WireError),
                    Some(k) => {
                        assert(rest.skip(k as int) =~= bytes@.skip(pos + n + k));
                        pos = pos + n + k;
                    },
                }
            }
        }
        assert(bytes@.skip(pos as int) =~= Seq::<u8>::empty());
        let mut payload: Vec<u8> = Vec::new();
        append_bytes(&mut payload, &bytes[payload_at..payload_at + payload_len]);
        proof {
            assert(payload@ =~= bytes@.subrange(payload_at as int, (payload_at + payload_len) as int));
        }
        Ok(Envelope { channel, payload })
    }
}

proof fn lemma_small_key(k: u8, rest: Seq<u8>)
    requires
        k < 128,
        k / 8 >= 1,
        k % 8 != 6 && k % 8 != 7,
    ensures
        decode_key(seq![k] + rest) == Some(((k / 8) as u32, (k % 8) as u8, 1nat)),
        (seq![k] + rest).skip(1) == rest,
{
    let b = seq![k] + rest;
    assert(b[0] == k);
    assert(varint_end_from(b, 0) == Some(0nat));
    assert(b.take(1) =~= seq![k]);
    assert(seq![k].drop_first() =~= Seq::<u8>::empty());
    assert(digits_value(seq![k]) == (k % 128) as nat + 128 * digits_value(Seq::<u8>::empty()));
    assert(decode_varint(b) == Some((k as u64, 1nat)));
    assert(b.skip(1) =~= rest);
}

/// Decoding an encoded envelope gives back its channel and payload.
pub proof fn law_envelope_roundtrip(channel: i32, payload: Seq<u8>)
    requires
        payload.len() < 0x1_0000_0000_0000_0000,
    ensures
        decode_envelope(envelope_bytes(channel, payload)) == Some((channel, payload)),
{
    let tail = if payload.len() == 0 {
        Seq::<u8>::empty()
    } else {
        seq![0x12u8] + encode_varint(payload.len()) + payload
    };
    lemma_tail_decodes(channel, payload);
    if channel == 0 {
        assert(envelope_bytes(channel, payload) =~= tail);
    } else {
        lemma_head_decodes(channel, tail);
        assert(envelope_bytes(channel, payload) =~= seq![0x08u8] + (encode_varint(
            i32_wire(channel),
        ) + tail));
    }
}

proof fn lemma_head_decodes(channel: i32, tail: Seq<u8>)
    requires
        channel != 0,
    ensures
        decode_envelope_fields(
            seq![0x08u8] + (encode_varint(i32_wire(channel)) + tail),
            0,
            Seq::empty(),
        ) == decode_envelope_fields(tail, channel, Seq::empty()),
{
    lemma_i32_wire_roundtrip(channel);
    let wv = i32_wire(channel) as u64;
    let ev = encode_varint(wv as nat);
    let rest = ev + tail;
    let b = seq![0x08u8] + rest;
    lemma_small_key(0x08u8, rest);
    law_varint_roundtrip(wv, tail);
    lemma_encode_shape(wv as nat);
    assert(rest.skip(ev.len() as int) =~= tail);
}

proof fn lemma_tail_decodes(channel: i32, payload: Seq<u8>)
    requires
        payload.len() < 0x1_0000_0000_0000_0000,
    ensures
        decode_envelope_fields(
            if payload.len() == 0 {
                Seq::<u8>::empty()
            } else {
                seq![0x12u8] + encode_varint(payload.len()) + payload
            },
            channel,
            Seq::empty(),
        ) == Some((channel, payload)),
{
    if payload.len() == 0 {
        assert(payload =~= Seq::<u8>::empty());
    } else {
        let lv = payload.len() as u64;
        let el = encode_varint(lv as nat);
        let rest = el + payload;
        let b = seq![0x12u8] + rest;
        assert(seq![0x12u8] + el + payload =~= b);
        lemma_small_key(0x12u8, rest);
        law_varint_roundtrip(lv, payload);
        lemma_encode_shape(lv as nat);
        assert(rest.skip((el.len() + payload.len()) as int) =~= Seq::<u8>::empty());
        assert(rest.subrange(el.len() as int, (el.len() + payload.len()) as int) =~= payload);
        assert(decode_envelope_fields(Seq::<u8>::empty(), channel, payload) == Some(
            (channel, payload),
        ));
    }
}

} // verus!
