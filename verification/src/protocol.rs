//! The session protocol carried in envelopes: control, sync, awareness and
//! translation messages, as protobuf messages of this library's schema.
//!
//! Schema (field numbers):
//! - `ControlMessage`: oneof `subscribe` 1, `unsubscribe` 2, `subscribed` 3,
//!   `error` 4, `translate_subscribe` 5.
//! - `Subscribe`: `wavelet` 1, `state_vector` 2. `Unsubscribe`,
//!   `Subscribed`: `wavelet` 1. `ControlError`: `wavelet` 1, `code` 2,
//!   `message` 3. `TranslateSubscribe`: `wavelet` 1, `target_lang` 2.
//! - `SyncMessage`: `wavelet` 1, oneof `sync_state` 2, `update` 3.
//!   `SyncState`: `state_vector` 1, `diff` 2. `Update`: `update` 1.
//! - `AwarenessMessage`: `wavelet` 1, `payload` 2.
//! - `TranslationMessage`: `wavelet` 1, `target_lang` 2, repeated `entries`
//!   3; `TranslationEntry`: `blip` 1, `text` 2, `pending` 3.
//!
//! Strings are UTF-8. Writers emit every field; readers take the last
//! occurrence of a field and of a oneof, and refuse a known field of the
//! wrong wire type.

use vstd::prelude::*;
use vstd::utf8::{valid_utf8, decode_utf8, encode_utf8, encode_utf8_decode_utf8, encode_utf8_valid_utf8};
use crate::fields::{
    Field, field_ok, fields_bytes, fields_view, decode_fields, law_fields_roundtrip, read_fields, put_bytes_field,
    put_varint_field, bytes_field, kind_ok, last_with_tag, check_kind, get_bytes, find_last, field_view,
};
use crate::wire::{Channel, Envelope, envelope_bytes, channel_code, append_bytes};

verus! {

/// `std::str::from_utf8`, owned: the string when the bytes are valid UTF-8.
#[verifier::external_body]
pub(crate) fn utf8_string(b: &[u8]) -> (r: Option<String>)
    ensures
        match r {
            Some(s) => valid_utf8(b@) && s@ == decode_utf8(b@),
            None => !valid_utf8(b@),
        },
{
    std::str::from_utf8(b).ok().map(|s| s.to_owned())
}

/// The UTF-8 bytes of a string.
pub(crate) fn text_bytes(s: &str) -> (r: Vec<u8>)
    ensures
        r@ == encode_utf8(s@),
{
    let mut r: Vec<u8> = Vec::new();
    append_bytes(&mut r, s.as_bytes());
    r
}

pub open spec fn delim(tag: u32, b: Seq<u8>) -> (u32, bool, u64, Seq<u8>) {
    (tag, true, 0u64, b)
}

/// A string field of a decoded message: empty when absent; `None` when it
/// is not length-delimited or not UTF-8.
pub open spec fn text_at(fs: Seq<(u32, bool, u64, Seq<u8>)>, tag: u32) -> Option<Seq<char>> {
    if kind_ok(fs, tag, true) && valid_utf8(bytes_field(fs, tag)) {
        Some(decode_utf8(bytes_field(fs, tag)))
    } else {
        None
    }
}

/// A bytes field of a decoded message: empty when absent; `None` when it is
/// not length-delimited.
pub open spec fn bytes_at(fs: Seq<(u32, bool, u64, Seq<u8>)>, tag: u32) -> Option<Seq<u8>> {
    if kind_ok(fs, tag, true) { Some(bytes_field(fs, tag)) } else { None }
}

pub(crate) fn read_text(fs: &Vec<Field>, tag: u32) -> (r: Option<String>)
    ensures
        match r {
            Some(s) => text_at(fields_view(fs@), tag) == Some(s@),
            None => text_at(fields_view(fs@), tag) is None,
        },
{
    if !check_kind(fs, tag, true) {
        return None;
    }
    let b = get_bytes(fs, tag);
    utf8_string(b.as_slice())
}

pub(crate) fn read_bytes(fs: &Vec<Field>, tag: u32) -> (r: Option<Vec<u8>>)
    ensures
        match r {
            Some(b) => bytes_at(fields_view(fs@), tag) == Some(b@),
            None => bytes_at(fields_view(fs@), tag) is None,
        },
{
    if !check_kind(fs, tag, true) {
        return None;
    }
    Some(get_bytes(fs, tag))
}

// ---------------------------------------------------------------------------
// Messages as values
// ---------------------------------------------------------------------------

/// A control message's kind, as plain values.
pub enum ControlView {
    Subscribe(Seq<char>, Seq<u8>),
    Unsubscribe(Seq<char>),
    Subscribed(Seq<char>),
    Error(Seq<char>, Seq<char>, Seq<char>),
    TranslateSubscribe(Seq<char>, Seq<char>),
}

/// A control message's kind.
#[derive(Debug)]
pub enum ControlKind {
    /// Join a wavelet, sending the client's state vector.
    Subscribe { wavelet: String, state_vector: Vec<u8> },
    /// Leave a wavelet.
    Unsubscribe { wavelet: String },
    /// The server's acknowledgement of a subscription.
    Subscribed { wavelet: String },
    /// A refusal or failure concerning a wavelet.
    Error { wavelet: String, code: String, message: String },
    /// Receive translations of a wavelet into a language.
    TranslateSubscribe { wavelet: String, target_lang: String },
}

impl View for ControlKind {
    type V = ControlView;

    open spec fn view(&self) -> ControlView {
        match self {
            ControlKind::Subscribe { wavelet, state_vector } => ControlView::Subscribe(wavelet@, state_vector@),
            ControlKind::Unsubscribe { wavelet } => ControlView::Unsubscribe(wavelet@),
            ControlKind::Subscribed { wavelet } => ControlView::Subscribed(wavelet@),
            ControlKind::Error { wavelet, code, message } => ControlView::Error(wavelet@, code@, message@),
            ControlKind::TranslateSubscribe { wavelet, target_lang } => ControlView::TranslateSubscribe(
                wavelet@,
                target_lang@,
            ),
        }
    }
}

/// A sync message's kind, as plain values.
pub enum SyncView {
    SyncState(Seq<u8>, Seq<u8>),
    Update(Seq<u8>),
}

/// A sync message's kind.
#[derive(Debug)]
pub enum SyncKind {
    /// The server's state vector and the diff the client is missing.
    SyncState { state_vector: Vec<u8>, diff: Vec<u8> },
    /// A document update.
    Update { update: Vec<u8> },
}

impl View for SyncKind {
    type V = SyncView;

    open spec fn view(&self) -> SyncView {
        match self {
            SyncKind::SyncState { state_vector, diff } => SyncView::SyncState(state_vector@, diff@),
            SyncKind::Update { update } => SyncView::Update(update@),
        }
    }
}

// ---------------------------------------------------------------------------
// Encodings
// ---------------------------------------------------------------------------

/// The inner message and oneof tag of a control kind.
pub open spec fn control_inner(c: ControlView) -> (u32, Seq<(u32, bool, u64, Seq<u8>)>) {
    match c {
        ControlView::Subscribe(w, sv) => (1u32, seq![delim(1, encode_utf8(w)), delim(2, sv)]),
        ControlView::Unsubscribe(w) => (2u32, seq![delim(1, encode_utf8(w))]),
        ControlView::Subscribed(w) => (3u32, seq![delim(1, encode_utf8(w))]),
        ControlView::Error(w, code, msg) => (
            4u32,
            seq![delim(1, encode_utf8(w)), delim(2, encode_utf8(code)), delim(3, encode_utf8(msg))],
        ),
        ControlView::TranslateSubscribe(w, lang) => (
            5u32,
            seq![delim(1, encode_utf8(w)), delim(2, encode_utf8(lang))],
        ),
    }
}

/// The bytes of a `ControlMessage` holding `c`.
pub open spec fn control_bytes(c: ControlView) -> Seq<u8> {
    let (tag, inner) = control_inner(c);
    fields_bytes(seq![delim(tag, fields_bytes(inner))])
}

/// The inner message and oneof tag of a sync kind.
pub open spec fn sync_inner(k: SyncView) -> (u32, Seq<(u32, bool, u64, Seq<u8>)>) {
    match k {
        SyncView::SyncState(sv, diff) => (2u32, seq![delim(1, sv), delim(2, diff)]),
        SyncView::Update(u) => (3u32, seq![delim(1, u)]),
    }
}

/// The bytes of a `SyncMessage` for `wavelet` holding `k`.
pub open spec fn sync_bytes(wavelet: Seq<char>, k: SyncView) -> Seq<u8> {
    let (tag, inner) = sync_inner(k);
    fields_bytes(seq![delim(1, encode_utf8(wavelet)), delim(tag, fields_bytes(inner))])
}

/// The bytes of an `AwarenessMessage`.
pub open spec fn awareness_bytes(wavelet: Seq<char>, payload: Seq<u8>) -> Seq<u8> {
    fields_bytes(seq![delim(1, encode_utf8(wavelet)), delim(2, payload)])
}

pub(crate) fn put_text_field(out: &mut Vec<u8>, tag: u32, s: &str)
    requires
        1 <= tag <= 15,
    ensures
        final(out)@ == old(out)@ + crate::fields::field_bytes(delim(tag, encode_utf8(s@))),
{
    let b = text_bytes(s);
    put_bytes_field(out, tag, b.as_slice());
}

pub(crate) proof fn lemma_one(f: (u32, bool, u64, Seq<u8>))
    ensures
        fields_bytes(seq![f]) == crate::fields::field_bytes(f),
{
    assert(seq![f].drop_last() =~= Seq::<(u32, bool, u64, Seq<u8>)>::empty());
    assert(seq![f].last() == f);
    assert(fields_bytes(Seq::<(u32, bool, u64, Seq<u8>)>::empty()) == Seq::<u8>::empty());
    assert(Seq::<u8>::empty() + crate::fields::field_bytes(f) =~= crate::fields::field_bytes(f));
}

pub(crate) proof fn lemma_two(f: (u32, bool, u64, Seq<u8>), g: (u32, bool, u64, Seq<u8>))
    ensures
        fields_bytes(seq![f, g]) == crate::fields::field_bytes(f) + crate::fields::field_bytes(g),
{
    assert(seq![f, g].drop_last() =~= seq![f]);
    assert(seq![f, g].last() == g);
    lemma_one(f);
}

pub(crate) proof fn lemma_three(f: (u32, bool, u64, Seq<u8>), g: (u32, bool, u64, Seq<u8>), h: (u32, bool, u64, Seq<u8>))
    ensures
        fields_bytes(seq![f, g, h]) == crate::fields::field_bytes(f) + crate::fields::field_bytes(g)
            + crate::fields::field_bytes(h),
{
    assert(seq![f, g, h].drop_last() =~= seq![f, g]);
    assert(seq![f, g, h].last() == h);
    lemma_two(f, g);
}

/// The bytes of a control message.
pub fn encode_control(c: &ControlKind) -> (out: Vec<u8>)
    ensures
        out@ == control_bytes(c@),
{
    let mut inner: Vec<u8> = Vec::new();
    let tag: u32;
    match c {
        ControlKind::Subscribe { wavelet, state_vector } => {
            tag = 1;
            put_text_field(&mut inner, 1, wavelet.as_str());
            put_bytes_field(&mut inner, 2, state_vector.as_slice());
            proof { lemma_two(delim(1, encode_utf8(wavelet@)), delim(2, state_vector@)); }
        },
        ControlKind::Unsubscribe { wavelet } => {
            tag = 2;
            put_text_field(&mut inner, 1, wavelet.as_str());
            proof { lemma_one(delim(1, encode_utf8(wavelet@))); }
        },
        ControlKind::Subscribed { wavelet } => {
            tag = 3;
            put_text_field(&mut inner, 1, wavelet.as_str());
            proof { lemma_one(delim(1, encode_utf8(wavelet@))); }
        },
        ControlKind::Error { wavelet, code, message } => {
            tag = 4;
            put_text_field(&mut inner, 1, wavelet.as_str());
            put_text_field(&mut inner, 2, code.as_str());
            put_text_field(&mut inner, 3, message.as_str());
            proof {
                lemma_three(
                    delim(1, encode_utf8(wavelet@)),
                    delim(2, encode_utf8(code@)),
                    delim(3, encode_utf8(message@)),
                );
            }
        },
        ControlKind::TranslateSubscribe { wavelet, target_lang } => {
            tag = 5;
            put_text_field(&mut inner, 1, wavelet.as_str());
            put_text_field(&mut inner, 2, target_lang.as_str());
            proof { lemma_two(delim(1, encode_utf8(wavelet@)), delim(2, encode_utf8(target_lang@))); }
        },
    }
    let mut out: Vec<u8> = Vec::new();
    put_bytes_field(&mut out, tag, inner.as_slice());
    proof { lemma_one(delim(tag, inner@)); }
    out
}

/// The bytes of a sync message.
pub fn encode_sync(wavelet: &str, k: &SyncKind) -> (out: Vec<u8>)
    ensures
        out@ == sync_bytes(wavelet@, k@),
{
    let mut inner: Vec<u8> = Vec::new();
    let tag: u32;
    match k {
        SyncKind::SyncState { state_vector, diff } => {
            tag = 2;
            put_bytes_field(&mut inner, 1, state_vector.as_slice());
            put_bytes_field(&mut inner, 2, diff.as_slice());
            proof { lemma_two(delim(1, state_vector@), delim(2, diff@)); }
        },
        SyncKind::Update { update } => {
            tag = 3;
            put_bytes_field(&mut inner, 1, update.as_slice());
            proof { lemma_one(delim(1, update@)); }
        },
    }
    let mut out: Vec<u8> = Vec::new();
    put_text_field(&mut out, 1, wavelet);
    put_bytes_field(&mut out, tag, inner.as_slice());
    proof { lemma_two(delim(1, encode_utf8(wavelet@)), delim(tag, inner@)); }
    out
}

/// The bytes of an awareness message.
pub fn encode_awareness(wavelet: &str, payload: &[u8]) -> (out: Vec<u8>)
    ensures
        out@ == awareness_bytes(wavelet@, payload@),
{
    let mut out: Vec<u8> = Vec::new();
    put_text_field(&mut out, 1, wavelet);
    put_bytes_field(&mut out, 2, payload);
    proof { lemma_two(delim(1, encode_utf8(wavelet@)), delim(2, payload@)); }
    out
}

/// The fields of a `TranslationEntry`: blip id, translated text, pending.
pub open spec fn entry_fields(e: (Seq<char>, Seq<char>, bool)) -> Seq<(u32, bool, u64, Seq<u8>)> {
    seq![delim(1, encode_utf8(e.0)), delim(2, encode_utf8(e.1)), (3u32, false, if e.2 { 1u64 } else { 0u64 }, Seq::empty())]
}

/// The entry fields of a `TranslationMessage`, after its wavelet and language.
pub open spec fn entries_fields(es: Seq<(Seq<char>, Seq<char>, bool)>) -> Seq<(u32, bool, u64, Seq<u8>)> {
    es.map_values(|e: (Seq<char>, Seq<char>, bool)| delim(3, fields_bytes(entry_fields(e))))
}

/// The bytes of a `TranslationMessage`.
pub open spec fn translation_bytes(wavelet: Seq<char>, lang: Seq<char>, es: Seq<(Seq<char>, Seq<char>, bool)>) -> Seq<u8> {
    fields_bytes(seq![delim(1, encode_utf8(wavelet)), delim(2, encode_utf8(lang))] + entries_fields(es))
}

pub open spec fn entry_view(e: (String, String, bool)) -> (Seq<char>, Seq<char>, bool) {
    (e.0@, e.1@, e.2)
}

/// The bytes of a translation overlay message.
pub fn encode_translation(wavelet: &str, lang: &str, entries: &Vec<(String, String, bool)>) -> (out: Vec<u8>)
    ensures
        out@ == translation_bytes(wavelet@, lang@, entries@.map_values(|e: (String, String, bool)| entry_view(e))),
{
    let ghost es = entries@.map_values(|e: (String, String, bool)| entry_view(e));
    let ghost head = seq![delim(1, encode_utf8(wavelet@)), delim(2, encode_utf8(lang@))];
    let mut out: Vec<u8> = Vec::new();
    put_text_field(&mut out, 1, wavelet);
    put_text_field(&mut out, 2, lang);
    proof {
        lemma_two(delim(1, encode_utf8(wavelet@)), delim(2, encode_utf8(lang@)));
        assert(head + entries_fields(es.take(0)) =~= head);
    }
    let mut i: usize = 0;
    while i < entries.len()
        invariant
            i <= entries.len(),
            es == entries@.map_values(|e: (String, String, bool)| entry_view(e)),
            head == seq![delim(1, encode_utf8(wavelet@)), delim(2, encode_utf8(lang@))],
            out@ == fields_bytes(head + entries_fields(es.take(i as int))),
        decreases entries.len() - i,
    {
        let e = &entries[i];
        let mut inner: Vec<u8> = Vec::new();
        put_text_field(&mut inner, 1, e.0.as_str());
        put_text_field(&mut inner, 2, e.1.as_str());
        put_varint_field(&mut inner, 3, if e.2 { 1 } else { 0 });
        proof {
            lemma_three(
                delim(1, encode_utf8(e.0@)),
                delim(2, encode_utf8(e.1@)),
                (3u32, false, if e.2 { 1u64 } else { 0u64 }, Seq::empty()),
            );
            assert(es[i as int] == entry_view(*e));
        }
        let ghost before = out@;
        put_bytes_field(&mut out, 3, inner.as_slice());
        proof {
            let prev = head + entries_fields(es.take(i as int));
            let next = head + entries_fields(es.take(i + 1));
            assert(next =~= prev.push(delim(3, inner@)));
            assert(next.drop_last() =~= prev);
        }
        i += 1;
    }
    assert(es.take(entries.len() as int) =~= es);
    out
}

// ---------------------------------------------------------------------------
// Decodings
// ---------------------------------------------------------------------------

/// Index of the last field with a tag in `lo..=hi`, or -1.
pub open spec fn last_in(fs: Seq<(u32, bool, u64, Seq<u8>)>, lo: u32, hi: u32) -> int
    decreases fs.len(),
{
    if fs.len() == 0 {
        -1
    } else if lo <= fs.last().0 <= hi {
        fs.len() - 1
    } else {
        last_in(fs.drop_last(), lo, hi)
    }
}

/// Every field with a tag in `lo..=hi` is length-delimited.
pub open spec fn delimited_in(fs: Seq<(u32, bool, u64, Seq<u8>)>, lo: u32, hi: u32) -> bool {
    forall|i: int| 0 <= i < fs.len() && lo <= (#[trigger] fs[i]).0 <= hi ==> fs[i].1
}

/// The control kind held by the oneof field `tag` with bytes `b`.
pub open spec fn decode_control_kind(tag: u32, b: Seq<u8>) -> Option<ControlView> {
    match decode_fields(b) {
        None => None,
        Some(fs) => if tag == 1 {
            match (text_at(fs, 1), bytes_at(fs, 2)) {
                (Some(w), Some(sv)) => Some(ControlView::Subscribe(w, sv)),
                _ => None,
            }
        } else if tag == 2 {
            match text_at(fs, 1) {
                Some(w) => Some(ControlView::Unsubscribe(w)),
                None => None,
            }
        } else if tag == 3 {
            match text_at(fs, 1) {
                Some(w) => Some(ControlView::Subscribed(w)),
                None => None,
            }
        } else if tag == 4 {
            match (text_at(fs, 1), text_at(fs, 2), text_at(fs, 3)) {
                (Some(w), Some(c), Some(m)) => Some(ControlView::Error(w, c, m)),
                _ => None,
            }
        } else {
            match (text_at(fs, 1), text_at(fs, 2)) {
                (Some(w), Some(l)) => Some(ControlView::TranslateSubscribe(w, l)),
                _ => None,
            }
        },
    }
}

/// A `ControlMessage`: `Some(None)` when it holds no kind; `None` when the
/// bytes are not a well-formed control message.
pub open spec fn decode_control_spec(b: Seq<u8>) -> Option<Option<ControlView>> {
    match decode_fields(b) {
        None => None,
        Some(fs) => if !delimited_in(fs, 1, 5) {
            None
        } else {
            let i = last_in(fs, 1, 5);
            if i < 0 {
                Some(None)
            } else {
                match decode_control_kind(fs[i].0, fs[i].3) {
                    Some(c) => Some(Some(c)),
                    None => None,
                }
            }
        },
    }
}

/// The sync kind held by the oneof field `tag` with bytes `b`.
pub open spec fn decode_sync_kind(tag: u32, b: Seq<u8>) -> Option<SyncView> {
    match decode_fields(b) {
        None => None,
        Some(fs) => if tag == 2 {
            match (bytes_at(fs, 1), bytes_at(fs, 2)) {
                (Some(sv), Some(d)) => Some(SyncView::SyncState(sv, d)),
                _ => None,
            }
        } else {
            match bytes_at(fs, 1) {
                Some(u) => Some(SyncView::Update(u)),
                None => None,
            }
        },
    }
}

/// A `SyncMessage`: its wavelet and kind (if any).
pub open spec fn decode_sync_spec(b: Seq<u8>) -> Option<(Seq<char>, Option<SyncView>)> {
    match decode_fields(b) {
        None => None,
        Some(fs) => if !delimited_in(fs, 2, 3) {
            None
        } else {
            match text_at(fs, 1) {
                None => None,
                Some(w) => {
                    let i = last_in(fs, 2, 3);
                    if i < 0 {
                        Some((w, None))
                    } else {
                        match decode_sync_kind(fs[i].0, fs[i].3) {
                            Some(k) => Some((w, Some(k))),
                            None => None,
                        }
                    }
                },
            }
        },
    }
}

/// An `AwarenessMessage`: its wavelet and payload.
pub open spec fn decode_awareness_spec(b: Seq<u8>) -> Option<(Seq<char>, Seq<u8>)> {
    match decode_fields(b) {
        None => None,
        Some(fs) => match (text_at(fs, 1), bytes_at(fs, 2)) {
            (Some(w), Some(p)) => Some((w, p)),
            _ => None,
        },
    }
}

fn find_last_in(fs: &Vec<Field>, lo: u32, hi: u32) -> (r: Option<usize>)
    ensures
        match r {
            Some(i) => i < fs.len() && last_in(fields_view(fs@), lo, hi) == i,
            None => last_in(fields_view(fs@), lo, hi) == -1,
        },
{
    let ghost v = fields_view(fs@);
    let mut i = fs.len();
    assert(v.take(i as int) =~= v);
    while i > 0
        invariant
            i <= fs.len(),
            v == fields_view(fs@),
            last_in(v, lo, hi) == last_in(v.take(i as int), lo, hi),
        decreases i,
    {
        assert(v.take(i as int).last() == field_view(fs@[i - 1]));
        if lo <= fs[i - 1].tag && fs[i - 1].tag <= hi {
            return Some(i - 1);
        }
        assert(v.take(i as int).drop_last() =~= v.take(i - 1));
        i -= 1;
    }
    None
}

fn check_delimited_in(fs: &Vec<Field>, lo: u32, hi: u32) -> (b: bool)
    ensures
        b == delimited_in(fields_view(fs@), lo, hi),
{
    let ghost v = fields_view(fs@);
    let mut i: usize = 0;
    while i < fs.len()
        invariant
            i <= fs.len(),
            v == fields_view(fs@),
            forall|j: int| 0 <= j < i && lo <= (#[trigger] v[j]).0 <= hi ==> v[j].1,
        decreases fs.len() - i,
    {
        assert(v[i as int] == field_view(fs@[i as int]));
        if lo <= fs[i].tag && fs[i].tag <= hi && !fs[i].delimited {
            return false;
        }
        i += 1;
    }
    true
}

pub open spec fn control_opt_view(o: Option<ControlKind>) -> Option<ControlView> {
    match o {
        Some(c) => Some(c@),
        None => None,
    }
}

fn decode_control_kind_exec(tag: u32, b: &[u8]) -> (r: Option<ControlKind>)
    ensures
        control_opt_view(r) == decode_control_kind(tag, b@),
{
    let fs = match read_fields(b) {
        Some(fs) => fs,
        None => return None,
    };
    if tag == 1 {
        match (read_text(&fs, 1), read_bytes(&fs, 2)) {
            (Some(wavelet), Some(state_vector)) => Some(ControlKind::Subscribe { wavelet, state_vector }),
            _ => None,
        }
    } else if tag == 2 {
        match read_text(&fs, 1) {
            Some(wavelet) => Some(ControlKind::Unsubscribe { wavelet }),
            None => None,
        }
    } else if tag == 3 {
        match read_text(&fs, 1) {
            Some(wavelet) => Some(ControlKind::Subscribed { wavelet }),
            None => None,
        }
    } else if tag == 4 {
        match (read_text(&fs, 1), read_text(&fs, 2), read_text(&fs, 3)) {
            (Some(wavelet), Some(code), Some(message)) => Some(ControlKind::Error { wavelet, code, message }),
            _ => None,
        }
    } else {
        match (read_text(&fs, 1), read_text(&fs, 2)) {
            (Some(wavelet), Some(target_lang)) => Some(ControlKind::TranslateSubscribe { wavelet, target_lang }),
            _ => None,
        }
    }
}

/// Decodes a control message: `Ok(None)` when it holds no kind.
pub fn decode_control(b: &[u8]) -> (r: Option<Option<ControlKind>>)
    ensures
        match r {
            Some(k) => decode_control_spec(b@) == Some(control_opt_view(k)),
            None => decode_control_spec(b@) is None,
        },
{
    let fs = match read_fields(b) {
        Some(fs) => fs,
        None => return None,
    };
    if !check_delimited_in(&fs, 1, 5) {
        return None;
    }
    match find_last_in(&fs, 1, 5) {
        None => Some(None),
        Some(i) => {
            assert(fields_view(fs@)[i as int] == field_view(fs@[i as int]));
            match decode_control_kind_exec(fs[i].tag, fs[i].bytes.as_slice()) {
                Some(c) => Some(Some(c)),
                None => None,
            }
        },
    }
}

pub open spec fn sync_opt_view(o: Option<SyncKind>) -> Option<SyncView> {
    match o {
        Some(k) => Some(k@),
        None => None,
    }
}

fn decode_sync_kind_exec(tag: u32, b: &[u8]) -> (r: Option<SyncKind>)
    ensures
        sync_opt_view(r) == decode_sync_kind(tag, b@),
{
    let fs = match read_fields(b) {
        Some(fs) => fs,
        None => return None,
    };
    if tag == 2 {
        match (read_bytes(&fs, 1), read_bytes(&fs, 2)) {
            (Some(state_vector), Some(diff)) => Some(SyncKind::SyncState { state_vector, diff }),
            _ => None,
        }
    } else {
        match read_bytes(&fs, 1) {
            Some(update) => Some(SyncKind::Update { update }),
            None => None,
        }
    }
}

/// Decodes a sync message into its wavelet and kind.
pub fn decode_sync(b: &[u8]) -> (r: Option<(String, Option<SyncKind>)>)
    ensures
        match r {
            Some((w, k)) => decode_sync_spec(b@) == Some((w@, sync_opt_view(k))),
            None => decode_sync_spec(b@) is None,
        },
{
    let fs = match read_fields(b) {
        Some(fs) => fs,
        None => return None,
    };
    if !check_delimited_in(&fs, 2, 3) {
        return None;
    }
    let w = match read_text(&fs, 1) {
        Some(w) => w,
        None => return None,
    };
    match find_last_in(&fs, 2, 3) {
        None => Some((w, None)),
        Some(i) => {
            assert(fields_view(fs@)[i as int] == field_view(fs@[i as int]));
            match decode_sync_kind_exec(fs[i].tag, fs[i].bytes.as_slice()) {
                Some(k) => Some((w, Some(k))),
                None => None,
            }
        },
    }
}

/// Decodes an awareness message into its wavelet and payload.
pub fn decode_awareness(b: &[u8]) -> (r: Option<(String, Vec<u8>)>)
    ensures
        match r {
            Some((w, p)) => decode_awareness_spec(b@) == Some((w@, p@)),
            None => decode_awareness_spec(b@) is None,
        },
{
    let fs = match read_fields(b) {
        Some(fs) => fs,
        None => return None,
    };
    match (read_text(&fs, 1), read_bytes(&fs, 2)) {
        (Some(w), Some(p)) => Some((w, p)),
        _ => None,
    }
}

// ---------------------------------------------------------------------------
// Round trips
// ---------------------------------------------------------------------------

pub(crate) proof fn lemma_delimited_lens(fs: Seq<(u32, bool, u64, Seq<u8>)>)
    requires
        forall|i: int| 0 <= i < fs.len() ==> (#[trigger] fs[i]).1,
    ensures
        forall|i: int| 0 <= i < fs.len() ==> (#[trigger] fs[i]).3.len() < fields_bytes(fs).len() + 1,
    decreases fs.len(),
{
    if fs.len() > 0 {
        let init = fs.drop_last();
        assert forall|i: int| 0 <= i < init.len() implies (#[trigger] init[i]).1 by {
            assert(init[i] == fs[i]);
        }
        lemma_delimited_lens(init);
        let f = fs.last();
        assert(crate::fields::field_bytes(f) == encode_varint_of_key(f) + crate::wire::encode_varint(f.3.len())
            + f.3);
        assert forall|i: int| 0 <= i < fs.len() implies (#[trigger] fs[i]).3.len() < fields_bytes(fs).len() + 1 by {
            if i < init.len() {
                assert(fs[i] == init[i]);
            }
        }
    }
}

pub open spec fn encode_varint_of_key(f: (u32, bool, u64, Seq<u8>)) -> Seq<u8> {
    crate::wire::encode_varint((f.0 * 8 + 2) as nat)
}

pub(crate) proof fn lemma_all_ok(fs: Seq<(u32, bool, u64, Seq<u8>)>)
    requires
        forall|i: int| 0 <= i < fs.len() ==> (#[trigger] fs[i]).1 && 1 <= fs[i].0 <= 15 && fs[i].2 == 0,
        fields_bytes(fs).len() < 0x1_0000_0000_0000_0000,
    ensures
        forall|i: int| 0 <= i < fs.len() ==> field_ok(#[trigger] fs[i]),
{
    lemma_delimited_lens(fs);
}

pub(crate) proof fn lemma_text_at(fs: Seq<(u32, bool, u64, Seq<u8>)>, tag: u32, w: Seq<char>)
    requires
        forall|i: int| 0 <= i < fs.len() ==> (#[trigger] fs[i]).1,
        bytes_field(fs, tag) == encode_utf8(w),
    ensures
        text_at(fs, tag) == Some(w),
{
    encode_utf8_valid_utf8(w);
    encode_utf8_decode_utf8(w);
}

/// Decoding an encoded control message gives back its kind.
pub proof fn law_control_roundtrip(c: ControlView)
    requires
        control_bytes(c).len() < 0x1_0000_0000_0000_0000,
    ensures
        decode_control_spec(control_bytes(c)) == Some(Some(c)),
{
    reveal_with_fuel(last_with_tag, 4);
    reveal_with_fuel(last_in, 2);
    let (tag, inner) = control_inner(c);
    let ib = fields_bytes(inner);
    let outer = seq![delim(tag, ib)];
    lemma_one(delim(tag, ib));
    lemma_all_ok(outer);
    law_fields_roundtrip(outer);
    assert(outer.drop_last() =~= Seq::<(u32, bool, u64, Seq<u8>)>::empty());
    assert(last_in(outer, 1, 5) == 0);
    lemma_delimited_lens(outer);
    lemma_all_ok(inner);
    law_fields_roundtrip(inner);
    match c {
        ControlView::Subscribe(w, sv) => {
            assert(inner.drop_last() =~= seq![delim(1, encode_utf8(w))]);
            lemma_text_at(inner, 1, w);
        },
        ControlView::Unsubscribe(w) => {
            lemma_text_at(inner, 1, w);
        },
        ControlView::Subscribed(w) => {
            lemma_text_at(inner, 1, w);
        },
        ControlView::Error(w, code, msg) => {
            assert(inner.drop_last() =~= seq![delim(1, encode_utf8(w)), delim(2, encode_utf8(code))]);
            assert(inner.drop_last().drop_last() =~= seq![delim(1, encode_utf8(w))]);
            lemma_text_at(inner, 1, w);
            lemma_text_at(inner, 2, code);
            lemma_text_at(inner, 3, msg);
        },
        ControlView::TranslateSubscribe(w, lang) => {
            assert(inner.drop_last() =~= seq![delim(1, encode_utf8(w))]);
            lemma_text_at(inner, 1, w);
            lemma_text_at(inner, 2, lang);
        },
    }
}

/// Decoding an encoded sync message gives back its wavelet and kind.
pub proof fn law_sync_roundtrip(wavelet: Seq<char>, k: SyncView)
    requires
        sync_bytes(wavelet, k).len() < 0x1_0000_0000_0000_0000,
    ensures
        decode_sync_spec(sync_bytes(wavelet, k)) == Some((wavelet, Some(k))),
{
    reveal_with_fuel(last_with_tag, 4);
    reveal_with_fuel(last_in, 3);
    let (tag, inner) = sync_inner(k);
    let ib = fields_bytes(inner);
    let outer = seq![delim(1, encode_utf8(wavelet)), delim(tag, ib)];
    lemma_two(delim(1, encode_utf8(wavelet)), delim(tag, ib));
    lemma_all_ok(outer);
    law_fields_roundtrip(outer);
    assert(outer.drop_last() =~= seq![delim(1, encode_utf8(wavelet))]);
    lemma_text_at(outer, 1, wavelet);
    assert(last_in(outer, 2, 3) == 1);
    lemma_delimited_lens(outer);
    lemma_all_ok(inner);
    law_fields_roundtrip(inner);
    match k {
        SyncView::SyncState(sv, diff) => {
            assert(inner.drop_last() =~= seq![delim(1, sv)]);
        },
        SyncView::Update(u) => {},
    }
}

/// Decoding an encoded awareness message gives back its wavelet and payload.
pub proof fn law_awareness_roundtrip(wavelet: Seq<char>, payload: Seq<u8>)
    requires
        awareness_bytes(wavelet, payload).len() < 0x1_0000_0000_0000_0000,
    ensures
        decode_awareness_spec(awareness_bytes(wavelet, payload)) == Some((wavelet, payload)),
{
    reveal_with_fuel(last_with_tag, 4);
    let fs = seq![delim(1, encode_utf8(wavelet)), delim(2, payload)];
    lemma_two(delim(1, encode_utf8(wavelet)), delim(2, payload));
    lemma_all_ok(fs);
    law_fields_roundtrip(fs);
    assert(fs.drop_last() =~= seq![delim(1, encode_utf8(wavelet))]);
    lemma_text_at(fs, 1, wavelet);
}

} // verus!
