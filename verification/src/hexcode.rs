//! Hexadecimal encoding (lower case) and decoding (either case) of bytes.

use vstd::prelude::*;
use crate::text::push_char;

verus! {

/// The lower-case hex digit for a nibble `n < 16`.
pub open spec fn hex_digit(n: u8) -> char {
    if n < 10 {
        ((n + 0x30) as u8) as char
    } else {
        ((n - 10 + 0x61) as u8) as char
    }
}

/// Lower-case hex encoding: two digits per byte, high nibble first.
pub open spec fn hex_of(bytes: Seq<u8>) -> Seq<char>
    decreases bytes.len(),
{
    if bytes.len() == 0 {
        Seq::empty()
    } else {
        seq![hex_digit(bytes[0] / 16), hex_digit(bytes[0] % 16)] + hex_of(bytes.drop_first())
    }
}

/// The value of a hex digit of either case, or `None` for any other char.
pub open spec fn hex_value(c: char) -> Option<u8> {
    if '0' <= c && c <= '9' {
        Some((c as u32 - 0x30) as u8)
    } else if 'a' <= c && c <= 'f' {
        Some((c as u32 - 0x61 + 10) as u8)
    } else if 'A' <= c && c <= 'F' {
        Some((c as u32 - 0x41 + 10) as u8)
    } else {
        None
    }
}

/// Whether `c` is an ASCII hex digit of either case.
pub open spec fn is_hex_char(c: char) -> bool {
    hex_value(c) is Some
}

/// Decoding of a hex string: `None` for odd length or a non-hex character.
pub open spec fn hex_decode(cs: Seq<char>) -> Option<Seq<u8>>
    decreases cs.len(),
{
    if cs.len() == 0 {
        Some(Seq::empty())
    } else if cs.len() == 1 {
        None
    } else {
        match (hex_value(cs[0]), hex_value(cs[1]), hex_decode(cs.skip(2))) {
            (Some(hi), Some(lo), Some(rest)) => Some(seq![(hi * 16 + lo) as u8] + rest),
            _ => None,
        }
    }
}

pub open spec fn prefix_opt(p: Seq<u8>, o: Option<Seq<u8>>) -> Option<Seq<u8>> {
    match o {
        Some(r) => Some(p + r),
        None => None,
    }
}

fn digit_char(n: u8) -> (c: char)
    requires
        n < 16,
    ensures
        c == hex_digit(n),
{
    if n < 10 {
        (n + 0x30) as char
    } else {
        (n - 10 + 0x61) as char
    }
}

fn digit_value(c: char) -> (r: Option<u8>)
    ensures
        r == hex_value(c),
{
    if '0' <= c && c <= '9' {
        Some((c as u32 - 0x30) as u8)
    } else if 'a' <= c && c <= 'f' {
        Some((c as u32 - 0x61 + 10) as u8)
    } else if 'A' <= c && c <= 'F' {
        Some((c as u32 - 0x41 + 10) as u8)
    } else {
        None
    }
}

proof fn lemma_hex_of_len(bytes: Seq<u8>)
    ensures
        hex_of(bytes).len() == 2 * bytes.len(),
    decreases bytes.len(),
{
    if bytes.len() > 0 {
        lemma_hex_of_len(bytes.drop_first());
    }
}

/// Hex of a sequence with one more byte appended.
proof fn lemma_hex_of_push(bytes: Seq<u8>, b: u8)
    ensures
        hex_of(bytes.push(b)) == hex_of(bytes) + seq![hex_digit(b / 16), hex_digit(b % 16)],
    decreases bytes.len(),
{
    if bytes.len() == 0 {
        assert(bytes.push(b).drop_first() =~= Seq::<u8>::empty());
        assert(hex_of(Seq::<u8>::empty()) =~= Seq::<char>::empty());
        assert(hex_of(bytes.push(b)) =~= seq![hex_digit(b / 16), hex_digit(b % 16)]);
    } else {
        assert(bytes.push(b).drop_first() =~= bytes.drop_first().push(b));
        lemma_hex_of_push(bytes.drop_first(), b);
        assert(hex_of(bytes.push(b)) =~= hex_of(bytes) + seq![hex_digit(b / 16), hex_digit(b % 16)]);
    }
}

/// Lower-case hex encoding of `bytes` (`hex::encode`).
pub fn hex_encode(bytes: &[u8]) -> (s: String)
    ensures
        s@ == hex_of(bytes@),
{
    let mut s = String::new();
    let mut i: usize = 0;
    while i < bytes.len()
        invariant
            i <= bytes.len(),
            s@ == hex_of(bytes@.take(i as int)),
        decreases bytes.len() - i,
    {
        let b = bytes[i];
        push_char(&mut s, digit_char(b / 16));
        push_char(&mut s, digit_char(b % 16));
        proof {
            lemma_hex_of_push(bytes@.take(i as int), b);
            assert(bytes@.take(i + 1) =~= bytes@.take(i as int).push(b));
        }
        i += 1;
    }
    assert(bytes@.take(bytes.len() as int) =~= bytes@);
    s
}

/// Decodes a hex string of either case (`hex::decode`); `None` when the
/// length is odd or a character is not a hex digit.
pub fn hex_decode_str(s: &str) -> (r: Option<Vec<u8>>)
    ensures
        match r {
            Some(v) => hex_decode(s@) == Some(v@),
            None => hex_decode(s@) is None,
        },
{
    let cs = crate::text::chars_of(s);
    let n = cs.len();
    if n % 2 == 1 {
        proof { lemma_odd_fails(cs@); }
        return None;
    }
    let mut out: Vec<u8> = Vec::new();
    let mut i: usize = 0;
    proof {
        assert(cs@.skip(0) =~= cs@);
        match hex_decode(cs@) {
            Some(r) => { assert(out@ + r =~= r); },
            None => {},
        }
    }
    while i < n
        invariant
            n == cs.len(),
            cs@ == s@,
            n % 2 == 0,
            i % 2 == 0,
            i <= n,
            hex_decode(cs@) == prefix_opt(out@, hex_decode(cs@.skip(i as int))),
        decreases n - i,
    {
        let hi = digit_value(cs[i]);
        let lo = digit_value(cs[i + 1]);
        let ghost rest = cs@.skip(i as int);
        assert(rest.skip(2) =~= cs@.skip(i + 2));
        assert(rest[0] == cs@[i as int] && rest[1] == cs@[i + 1]);
        match (hi, lo) {
            (Some(h), Some(l)) => {
                let b = (h * 16 + l) as u8;
                proof {
                    match hex_decode(cs@.skip(i + 2)) {
                        Some(r2) => {
                            assert(out@.push(b) + r2 =~= out@ + (seq![b] + r2));
                        },
                        None => {},
                    }
                }
                out.push(b);
                i += 2;
            },
            _ => {
                assert(hex_decode(rest) is None);
                assert(hex_decode(cs@) is None);
                assert(s@ == cs@);
                return None;
            },
        }
    }
    assert(cs@.skip(n as int) =~= Seq::<char>::empty());
    assert(out@ + Seq::<u8>::empty() =~= out@);
    Some(out)
}

proof fn lemma_odd_fails(cs: Seq<char>)
    requires
        cs.len() % 2 == 1,
    ensures
        hex_decode(cs) is None,
    decreases cs.len(),
{
    if cs.len() > 1 {
        lemma_odd_fails(cs.skip(2));
    }
}

/// Every lower-case hex encoding decodes back to the bytes it encodes.
pub proof fn law_hex_roundtrip(bytes: Seq<u8>)
    ensures
        hex_decode(hex_of(bytes)) == Some(bytes),
    decreases bytes.len(),
{
    if bytes.len() > 0 {
        let b = bytes[0];
        let h = hex_of(bytes);
        lemma_hex_of_len(bytes.drop_first());
        assert(h.skip(2) =~= hex_of(bytes.drop_first()));
        law_hex_roundtrip(bytes.drop_first());
        assert(hex_value(hex_digit(b / 16)) == Some(b / 16));
        assert(hex_value(hex_digit(b % 16)) == Some(b % 16));
        assert(seq![((b / 16) * 16 + b % 16) as u8] + bytes.drop_first() =~= bytes);
    } else {
        assert(hex_of(bytes) =~= Seq::<char>::empty());
    }
}

} // verus!
