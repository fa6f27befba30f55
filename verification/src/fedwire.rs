//! The federation protocol's messages, as protobuf messages of this
//! library's schema (field numbers):
//!
//! - `FedAck`: `ok` 1 (bool), `error` 2.
//! - `UpdateBatch`: `wavelet` 1, `update` 2 (bytes), `acl_version` 3.
//! - `FedSyncRequest`: `wavelet` 1, `state_vector` 2 (bytes).
//! - `FedSyncResponse`: `state_vector` 1, `diff` 2 (bytes).
//! - `BlobRequest`: `hash` 1, `wave` 2.
//! - `InferRequest`: `wave` 1, `prompt` 2, `context` 3, `model` 4.
//! - `InferResponse`: `text` 1, `model` 2.
//! - `WaveAnnouncement`: `wave` 1, `title` 2, `participants` 3 (repeated),
//!   `created_by` 4, `created_ms` 5, `acl_version` 6, `translation_enabled` 7.
//! - `ShareAnnouncement`: `wave` 1, `manifest_hash` 2, `name` 3,
//!   `total_size` 4, `file_count` 5, `uploader` 6, `created_ms` 7.
//! - `FolderManifest`: `name` 1, `total_size` 2, `created_ms` 3, `files` 4
//!   (repeated `FileEntry`: `path` 1, `size` 2, `mime` 3, `chunks` 4
//!   repeated).
//!
//! Writers emit every field; readers take the last occurrence of a field
//! (every occurrence of a repeated one) and refuse a known field of the
//! wrong wire type or a string that is not UTF-8.

use vstd::prelude::*;
use vstd::utf8::{valid_utf8, decode_utf8, encode_utf8, encode_utf8_decode_utf8, encode_utf8_valid_utf8};
use crate::fields::{
    Field, field_bytes, fields_bytes, fields_view, decode_fields, read_fields, put_bytes_field, put_varint_field,
    bytes_field, varint_field, kind_ok, check_kind, get_varint, get_all, all_with_tag, lemma_fields_push,
    law_fields_roundtrip, field_ok, last_with_tag,
};
use crate::protocol::{
    delim, text_at, bytes_at, read_text, read_bytes, put_text_field, utf8_string, lemma_text_at, lemma_all_ok,
};
use crate::shares::{FileEntry, FolderManifest, ShareMeta};
use crate::store::WaveMeta;
use crate::text::string_views;

verus! {

/// A varint field of a decoded message: zero when absent; `None` when it is
/// length-delimited.
pub open spec fn u64_at(fs: Seq<(u32, bool, u64, Seq<u8>)>, tag: u32) -> Option<u64> {
    if kind_ok(fs, tag, false) { Some(varint_field(fs, tag)) } else { None }
}

/// Every occurrence of a repeated string field, in order.
pub open spec fn texts_at(fs: Seq<(u32, bool, u64, Seq<u8>)>, tag: u32) -> Option<Seq<Seq<char>>> {
    let all = all_with_tag(fs, tag);
    if kind_ok(fs, tag, true) && forall|i: int| 0 <= i < all.len() ==> valid_utf8(#[trigger] all[i]) {
        Some(all.map_values(|b: Seq<u8>| decode_utf8(b)))
    } else {
        None
    }
}

pub(crate) fn read_u64(fs: &Vec<Field>, tag: u32) -> (r: Option<u64>)
    ensures
        r == u64_at(fields_view(fs@), tag),
{
    if !check_kind(fs, tag, false) {
        return None;
    }
    Some(get_varint(fs, tag))
}

pub(crate) fn read_texts(fs: &Vec<Field>, tag: u32) -> (r: Option<Vec<String>>)
    ensures
        match r {
            Some(v) => texts_at(fields_view(fs@), tag) == Some(string_views(v@)),
            None => texts_at(fields_view(fs@), tag) is None,
        },
{
    if !check_kind(fs, tag, true) {
        return None;
    }
    let all = get_all(fs, tag);
    let ghost av = all@.map_values(|b: Vec<u8>| b@);
    let mut out: Vec<String> = Vec::new();
    let mut i: usize = 0;
    while i < all.len()
        invariant
            i <= all.len(),
            av == all@.map_values(|b: Vec<u8>| b@),
            av == all_with_tag(fields_view(fs@), tag),
            forall|k: int| 0 <= k < i ==> valid_utf8(#[trigger] av[k]),
            string_views(out@) == av.take(i as int).map_values(|b: Seq<u8>| decode_utf8(b)),
        decreases all.len() - i,
    {
        assert(av[i as int] == all@[i as int]@);
        match utf8_string(all[i].as_slice()) {
            None => return None,
            Some(s) => {
                let ghost before = out@;
                out.push(s);
                assert(string_views(out@) =~= string_views(before).push(s@));
                assert(av.take(i + 1).map_values(|b: Seq<u8>| decode_utf8(b)) =~= av.take(i as int).map_values(
                    |b: Seq<u8>| decode_utf8(b),
                ).push(decode_utf8(av[i as int])));
            },
        }
        i += 1;
    }
    assert(av.take(all.len() as int) =~= av);
    Some(out)
}

// ---------------------------------------------------------------------------
// Acknowledgements
// ---------------------------------------------------------------------------

/// The bytes of a successful `FedAck`.
pub open spec fn ack_bytes() -> Seq<u8> {
    fields_bytes(seq![(1u32, false, 1u64, Seq::<u8>::empty()), delim(2, Seq::empty())])
}

/// The positive acknowledgement of a federated request.
pub fn ack() -> (out: Vec<u8>)
    ensures
        out@ == ack_bytes(),
{
    let mut out: Vec<u8> = Vec::new();
    put_varint_field(&mut out, 1, 1);
    put_bytes_field(&mut out, 2, &[]);
    proof {
        let e: Seq<u8> = Seq::empty();
        crate::protocol::lemma_two((1u32, false, 1u64, e), delim(2, e));
    }
    out
}

// ---------------------------------------------------------------------------
// Update batches and anti-entropy
// ---------------------------------------------------------------------------

/// A document update pushed to a peer, with the ACL version it was
/// authored under.
#[derive(Debug)]
pub struct UpdateBatch {
    pub wavelet: String,
    pub update: Vec<u8>,
    pub acl_version: u64,
}

pub open spec fn update_batch_fields(wavelet: Seq<char>, update: Seq<u8>, acl: u64) -> Seq<(u32, bool, u64, Seq<u8>)> {
    seq![delim(1, encode_utf8(wavelet)), delim(2, update), (3u32, false, acl, Seq::<u8>::empty())]
}

/// An `UpdateBatch` as (wavelet, update, acl version).
pub open spec fn decode_update_batch_spec(b: Seq<u8>) -> Option<(Seq<char>, Seq<u8>, u64)> {
    match decode_fields(b) {
        None => None,
        Some(fs) => match (text_at(fs, 1), bytes_at(fs, 2), u64_at(fs, 3)) {
            (Some(w), Some(u), Some(a)) => Some((w, u, a)),
            _ => None,
        },
    }
}

impl UpdateBatch {
    pub fn encode(&self) -> (out: Vec<u8>)
        ensures
            out@ == fields_bytes(update_batch_fields(self.wavelet@, self.update@, self.acl_version)),
    {
        let mut out: Vec<u8> = Vec::new();
        put_text_field(&mut out, 1, self.wavelet.as_str());
        put_bytes_field(&mut out, 2, self.update.as_slice());
        put_varint_field(&mut out, 3, self.acl_version);
        proof {
            crate::protocol::lemma_three(
                delim(1, encode_utf8(self.wavelet@)),
                delim(2, self.update@),
                (3u32, false, self.acl_version, Seq::<u8>::empty()),
            );
        }
        out
    }

    pub fn decode(b: &[u8]) -> (r: Option<Self>)
        ensures
            match r {
                Some(m) => decode_update_batch_spec(b@) == Some((m.wavelet@, m.update@, m.acl_version)),
                None => decode_update_batch_spec(b@) is None,
            },
    {
        let fs = match read_fields(b) {
            Some(fs) => fs,
            None => return None,
        };
        match (read_text(&fs, 1), read_bytes(&fs, 2), read_u64(&fs, 3)) {
            (Some(wavelet), Some(update), Some(acl_version)) => Some(UpdateBatch { wavelet, update, acl_version }),
            _ => None,
        }
    }
}

/// Decoding an encoded update batch gives it back.
pub proof fn law_update_batch_roundtrip(wavelet: Seq<char>, update: Seq<u8>, acl: u64)
    requires
        fields_bytes(update_batch_fields(wavelet, update, acl)).len() < 0x1_0000_0000_0000_0000,
    ensures
        decode_update_batch_spec(fields_bytes(update_batch_fields(wavelet, update, acl))) == Some(
            (wavelet, update, acl),
        ),
{
    reveal_with_fuel(last_with_tag, 4);
    let fs = update_batch_fields(wavelet, update, acl);
    let head = seq![delim(1, encode_utf8(wavelet)), delim(2, update)];
    assert(fs =~= head.push((3u32, false, acl, Seq::<u8>::empty())));
    lemma_fields_push(head, (3u32, false, acl, Seq::<u8>::empty()));
    crate::protocol::lemma_two(delim(1, encode_utf8(wavelet)), delim(2, update));
    crate::protocol::lemma_delimited_lens(head);
    assert forall|i: int| 0 <= i < fs.len() implies field_ok(#[trigger] fs[i]) by {
        if i < 2 {
            assert(fs[i] == head[i]);
        }
    }
    law_fields_roundtrip(fs);
    assert(fs.drop_last() =~= head);
    assert(head.drop_last() =~= seq![delim(1, encode_utf8(wavelet))]);
    encode_utf8_valid_utf8(wavelet);
    encode_utf8_decode_utf8(wavelet);
}

/// An anti-entropy request: our state vector for a wavelet.
#[derive(Debug)]
pub struct FedSyncRequest {
    pub wavelet: String,
    pub state_vector: Vec<u8>,
}

pub open spec fn decode_sync_request_spec(b: Seq<u8>) -> Option<(Seq<char>, Seq<u8>)> {
    match decode_fields(b) {
        None => None,
        Some(fs) => match (text_at(fs, 1), bytes_at(fs, 2)) {
            (Some(w), Some(sv)) => Some((w, sv)),
            _ => None,
        },
    }
}

impl FedSyncRequest {
    pub fn encode(&self) -> (out: Vec<u8>)
        ensures
            out@ == fields_bytes(seq![delim(1, encode_utf8(self.wavelet@)), delim(2, self.state_vector@)]),
    {
        let mut out: Vec<u8> = Vec::new();
        put_text_field(&mut out, 1, self.wavelet.as_str());
        put_bytes_field(&mut out, 2, self.state_vector.as_slice());
        proof { crate::protocol::lemma_two(delim(1, encode_utf8(self.wavelet@)), delim(2, self.state_vector@)); }
        out
    }

    pub fn decode(b: &[u8]) -> (r: Option<Self>)
        ensures
            match r {
                Some(m) => decode_sync_request_spec(b@) == Some((m.wavelet@, m.state_vector@)),
                None => decode_sync_request_spec(b@) is None,
            },
    {
        let fs = match read_fields(b) {
            Some(fs) => fs,
            None => return None,
        };
        match (read_text(&fs, 1), read_bytes(&fs, 2)) {
            (Some(wavelet), Some(state_vector)) => Some(FedSyncRequest { wavelet, state_vector }),
            _ => None,
        }
    }
}

/// The home server's answer: its state vector and the diff we lacked.
#[derive(Debug)]
pub struct FedSyncResponse {
    pub state_vector: Vec<u8>,
    pub diff: Vec<u8>,
}

pub open spec fn decode_sync_response_spec(b: Seq<u8>) -> Option<(Seq<u8>, Seq<u8>)> {
    match decode_fields(b) {
        None => None,
        Some(fs) => match (bytes_at(fs, 1), bytes_at(fs, 2)) {
            (Some(sv), Some(d)) => Some((sv, d)),
            _ => None,
        },
    }
}

impl FedSyncResponse {
    pub fn encode(&self) -> (out: Vec<u8>)
        ensures
            out@ == fields_bytes(seq![delim(1, self.state_vector@), delim(2, self.diff@)]),
    {
        let mut out: Vec<u8> = Vec::new();
        put_bytes_field(&mut out, 1, self.state_vector.as_slice());
        put_bytes_field(&mut out, 2, self.diff.as_slice());
        proof { crate::protocol::lemma_two(delim(1, self.state_vector@), delim(2, self.diff@)); }
        out
    }

    pub fn decode(b: &[u8]) -> (r: Option<Self>)
        ensures
            match r {
                Some(m) => decode_sync_response_spec(b@) == Some((m.state_vector@, m.diff@)),
                None => decode_sync_response_spec(b@) is None,
            },
    {
        let fs = match read_fields(b) {
            Some(fs) => fs,
            None => return None,
        };
        match (read_bytes(&fs, 1), read_bytes(&fs, 2)) {
            (Some(state_vector), Some(diff)) => Some(FedSyncResponse { state_vector, diff }),
            _ => None,
        }
    }
}

// ---------------------------------------------------------------------------
// Blobs and inference
// ---------------------------------------------------------------------------

/// A request for a blob-store blob held for a wave.
#[derive(Debug)]
pub struct BlobRequest {
    pub hash: String,
    pub wave: String,
}

pub open spec fn decode_blob_request_spec(b: Seq<u8>) -> Option<(Seq<char>, Seq<char>)> {
    match decode_fields(b) {
        None => None,
        Some(fs) => match (text_at(fs, 1), text_at(fs, 2)) {
            (Some(h), Some(w)) => Some((h, w)),
            _ => None,
        },
    }
}

impl BlobRequest {
    pub fn encode(&self) -> (out: Vec<u8>)
        ensures
            out@ == fields_bytes(seq![delim(1, encode_utf8(self.hash@)), delim(2, encode_utf8(self.wave@))]),
    {
        let mut out: Vec<u8> = Vec::new();
        put_text_field(&mut out, 1, self.hash.as_str());
        put_text_field(&mut out, 2, self.wave.as_str());
        proof { crate::protocol::lemma_two(delim(1, encode_utf8(self.hash@)), delim(2, encode_utf8(self.wave@))); }
        out
    }

    pub fn decode(b: &[u8]) -> (r: Option<Self>)
        ensures
            match r {
                Some(m) => decode_blob_request_spec(b@) == Some((m.hash@, m.wave@)),
                None => decode_blob_request_spec(b@) is None,
            },
    {
        let fs = match read_fields(b) {
            Some(fs) => fs,
            None => return None,
        };
        match (read_text(&fs, 1), read_text(&fs, 2)) {
            (Some(hash), Some(wave)) => Some(BlobRequest { hash, wave }),
            _ => None,
        }
    }
}

/// A request to answer a prompt with a peer's model (empty: its default).
#[derive(Debug)]
pub struct InferRequest {
    pub wave: String,
    pub prompt: String,
    pub context: String,
    pub model: String,
}

pub open spec fn infer_request_fields(r: InferRequest) -> Seq<(u32, bool, u64, Seq<u8>)> {
    seq![
        delim(1, encode_utf8(r.wave@)),
        delim(2, encode_utf8(r.prompt@)),
        delim(3, encode_utf8(r.context@)),
        delim(4, encode_utf8(r.model@)),
    ]
}

pub open spec fn decode_infer_request_spec(b: Seq<u8>) -> Option<(Seq<char>, Seq<char>, Seq<char>, Seq<char>)> {
    match decode_fields(b) {
        None => None,
        Some(fs) => match (text_at(fs, 1), text_at(fs, 2), text_at(fs, 3), text_at(fs, 4)) {
            (Some(w), Some(p), Some(c), Some(m)) => Some((w, p, c, m)),
            _ => None,
        },
    }
}

impl InferRequest {
    pub fn encode(&self) -> (out: Vec<u8>)
        ensures
            out@ == fields_bytes(infer_request_fields(*self)),
    {
        let mut out: Vec<u8> = Vec::new();
        put_text_field(&mut out, 1, self.wave.as_str());
        put_text_field(&mut out, 2, self.prompt.as_str());
        put_text_field(&mut out, 3, self.context.as_str());
        let ghost three = seq![
            delim(1, encode_utf8(self.wave@)),
            delim(2, encode_utf8(self.prompt@)),
            delim(3, encode_utf8(self.context@)),
        ];
        proof {
            crate::protocol::lemma_three(three[0], three[1], three[2]);
            assert(three =~= seq![three[0], three[1], three[2]]);
        }
        put_text_field(&mut out, 4, self.model.as_str());
        proof {
            lemma_fields_push(three, delim(4, encode_utf8(self.model@)));
            assert(infer_request_fields(*self) =~= three.push(delim(4, encode_utf8(self.model@))));
        }
        out
    }

    pub fn decode(b: &[u8]) -> (r: Option<Self>)
        ensures
            match r {
                Some(m) => decode_infer_request_spec(b@) == Some((m.wave@, m.prompt@, m.context@, m.model@)),
                None => decode_infer_request_spec(b@) is None,
            },
    {
        let fs = match read_fields(b) {
            Some(fs) => fs,
            None => return None,
        };
        match (read_text(&fs, 1), read_text(&fs, 2), read_text(&fs, 3), read_text(&fs, 4)) {
            (Some(wave), Some(prompt), Some(context), Some(model)) => Some(InferRequest { wave, prompt, context, model }),
            _ => None,
        }
    }
}

/// A peer's answer and the model that gave it.
#[derive(Debug)]
pub struct InferResponse {
    pub text: String,
    pub model: String,
}

pub open spec fn decode_infer_response_spec(b: Seq<u8>) -> Option<(Seq<char>, Seq<char>)> {
    match decode_fields(b) {
        None => None,
        Some(fs) => match (text_at(fs, 1), text_at(fs, 2)) {
            (Some(t), Some(m)) => Some((t, m)),
            _ => None,
        },
    }
}

impl InferResponse {
    pub fn encode(&self) -> (out: Vec<u8>)
        ensures
            out@ == fields_bytes(seq![delim(1, encode_utf8(self.text@)), delim(2, encode_utf8(self.model@))]),
    {
        let mut out: Vec<u8> = Vec::new();
        put_text_field(&mut out, 1, self.text.as_str());
        put_text_field(&mut out, 2, self.model.as_str());
        proof { crate::protocol::lemma_two(delim(1, encode_utf8(self.text@)), delim(2, encode_utf8(self.model@))); }
        out
    }

    pub fn decode(b: &[u8]) -> (r: Option<Self>)
        ensures
            match r {
                Some(m) => decode_infer_response_spec(b@) == Some((m.text@, m.model@)),
                None => decode_infer_response_spec(b@) is None,
            },
    {
        let fs = match read_fields(b) {
            Some(fs) => fs,
            None => return None,
        };
        match (read_text(&fs, 1), read_text(&fs, 2)) {
            (Some(text), Some(model)) => Some(InferResponse { text, model }),
            _ => None,
        }
    }
}

// ---------------------------------------------------------------------------
// Membership announcements
// ---------------------------------------------------------------------------

/// The home server's authoritative membership of a wave.
#[derive(Debug)]
pub struct WaveAnnouncement {
    pub wave: String,
    pub title: String,
    pub participants: Vec<String>,
    pub created_by: String,
    pub created_ms: u64,
    pub acl_version: u64,
    pub translation_enabled: bool,
}

pub open spec fn participant_fields(ps: Seq<Seq<char>>) -> Seq<(u32, bool, u64, Seq<u8>)> {
    ps.map_values(|p: Seq<char>| delim(3, encode_utf8(p)))
}

pub open spec fn announcement_fields(a: WaveAnnouncement) -> Seq<(u32, bool, u64, Seq<u8>)> {
    seq![delim(1, encode_utf8(a.wave@)), delim(2, encode_utf8(a.title@))] + participant_fields(
        string_views(a.participants@),
    ) + seq![
        delim(4, encode_utf8(a.created_by@)),
        (5u32, false, a.created_ms, Seq::<u8>::empty()),
        (6u32, false, a.acl_version, Seq::<u8>::empty()),
        (7u32, false, if a.translation_enabled { 1u64 } else { 0u64 }, Seq::<u8>::empty()),
    ]
}

/// A `WaveAnnouncement` as (wave, title, participants, created by, created
/// at, ACL version, translation flag).
pub open spec fn decode_announcement_spec(b: Seq<u8>) -> Option<
    (Seq<char>, Seq<char>, Seq<Seq<char>>, Seq<char>, u64, u64, bool),
> {
    match decode_fields(b) {
        None => None,
        Some(fs) => match (text_at(fs, 1), text_at(fs, 2), texts_at(fs, 3), text_at(fs, 4)) {
            (Some(w), Some(t), Some(ps), Some(c)) => match (u64_at(fs, 5), u64_at(fs, 6), u64_at(fs, 7)) {
                (Some(cm), Some(acl), Some(tr)) => Some((w, t, ps, c, cm, acl, tr != 0)),
                _ => None,
            },
            _ => None,
        },
    }
}

impl WaveAnnouncement {
    /// The announcement of a wave's metadata.
    pub fn of_meta(m: &WaveMeta) -> (a: Self)
        ensures
            a.wave@ == m.wave@,
            a.title@ == m.title@,
            string_views(a.participants@) == string_views(m.participants@),
            a.created_by@ == m.created_by@,
            a.created_ms == m.created_ms,
            a.acl_version == m.acl_version,
            a.translation_enabled == m.translation_enabled,
    {
        let mut participants: Vec<String> = Vec::new();
        let mut i: usize = 0;
        while i < m.participants.len()
            invariant
                i <= m.participants.len(),
                string_views(participants@) == string_views(m.participants@).take(i as int),
            decreases m.participants.len() - i,
        {
            let ghost before = participants@;
            participants.push(m.participants[i].as_str().to_owned());
            assert(string_views(participants@) =~= string_views(before).push(m.participants@[i as int]@));
            assert(string_views(m.participants@).take(i + 1) =~= string_views(m.participants@).take(i as int).push(
                m.participants@[i as int]@,
            ));
            i += 1;
        }
        assert(string_views(m.participants@).take(m.participants.len() as int) =~= string_views(m.participants@));
        WaveAnnouncement {
            wave: m.wave.as_str().to_owned(),
            title: m.title.as_str().to_owned(),
            participants,
            created_by: m.created_by.as_str().to_owned(),
            created_ms: m.created_ms,
            acl_version: m.acl_version,
            translation_enabled: m.translation_enabled,
        }
    }

    pub fn encode(&self) -> (out: Vec<u8>)
        ensures
            out@ == fields_bytes(announcement_fields(*self)),
    {
        let ghost head = seq![delim(1, encode_utf8(self.wave@)), delim(2, encode_utf8(self.title@))];
        let ghost ps = participant_fields(string_views(self.participants@));
        let mut out: Vec<u8> = Vec::new();
        put_text_field(&mut out, 1, self.wave.as_str());
        put_text_field(&mut out, 2, self.title.as_str());
        proof {
            crate::protocol::lemma_two(head[0], head[1]);
            assert(head =~= seq![head[0], head[1]]);
            assert(head + ps.take(0) =~= head);
        }
        let mut i: usize = 0;
        while i < self.participants.len()
            invariant
                i <= self.participants.len(),
                ps == participant_fields(string_views(self.participants@)),
                out@ == fields_bytes(head + ps.take(i as int)),
            decreases self.participants.len() - i,
        {
            put_text_field(&mut out, 3, self.participants[i].as_str());
            proof {
                assert(ps[i as int] == delim(3, encode_utf8(self.participants@[i as int]@)));
                lemma_fields_push(head + ps.take(i as int), ps[i as int]);
                assert(head + ps.take(i + 1) =~= (head + ps.take(i as int)).push(ps[i as int]));
            }
            i += 1;
        }
        let ghost body = head + ps;
        proof { assert(ps.take(self.participants.len() as int) =~= ps); }
        put_text_field(&mut out, 4, self.created_by.as_str());
        let ghost f4 = delim(4, encode_utf8(self.created_by@));
        proof { lemma_fields_push(body, f4); }
        put_varint_field(&mut out, 5, self.created_ms);
        let ghost f5 = (5u32, false, self.created_ms, Seq::<u8>::empty());
        proof { lemma_fields_push(body.push(f4), f5); }
        put_varint_field(&mut out, 6, self.acl_version);
        let ghost f6 = (6u32, false, self.acl_version, Seq::<u8>::empty());
        proof { lemma_fields_push(body.push(f4).push(f5), f6); }
        put_varint_field(&mut out, 7, if self.translation_enabled { 1 } else { 0 });
        let ghost f7 = (7u32, false, if self.translation_enabled { 1u64 } else { 0u64 }, Seq::<u8>::empty());
        proof {
            lemma_fields_push(body.push(f4).push(f5).push(f6), f7);
            assert(announcement_fields(*self) =~= body.push(f4).push(f5).push(f6).push(f7));
        }
        out
    }

    pub fn decode(b: &[u8]) -> (r: Option<Self>)
        ensures
            match r {
                Some(a) => decode_announcement_spec(b@) == Some(
                    (
                        a.wave@,
                        a.title@,
                        string_views(a.participants@),
                        a.created_by@,
                        a.created_ms,
                        a.acl_version,
                        a.translation_enabled,
                    ),
                ),
                None => decode_announcement_spec(b@) is None,
            },
    {
        let fs = match read_fields(b) {
            Some(fs) => fs,
            None => return None,
        };
        let wave = match read_text(&fs, 1) {
            Some(x) => x,
            None => return None,
        };
        let title = match read_text(&fs, 2) {
            Some(x) => x,
            None => return None,
        };
        let participants = match read_texts(&fs, 3) {
            Some(x) => x,
            None => return None,
        };
        let created_by = match read_text(&fs, 4) {
            Some(x) => x,
            None => return None,
        };
        match (read_u64(&fs, 5), read_u64(&fs, 6), read_u64(&fs, 7)) {
            (Some(created_ms), Some(acl_version), Some(tr)) => Some(
                WaveAnnouncement {
                    wave,
                    title,
                    participants,
                    created_by,
                    created_ms,
                    acl_version,
                    translation_enabled: tr != 0,
                },
            ),
            _ => None,
        }
    }
}

// ---------------------------------------------------------------------------
// Shared folders
// ---------------------------------------------------------------------------

/// A shared folder as announced to the wave's other domains.
#[derive(Debug)]
pub struct ShareAnnouncement {
    pub wave: String,
    pub manifest_hash: String,
    pub name: String,
    pub total_size: u64,
    pub file_count: u32,
    pub uploader: String,
    pub created_ms: u64,
}

pub open spec fn share_announcement_fields(a: ShareAnnouncement) -> Seq<(u32, bool, u64, Seq<u8>)> {
    seq![
        delim(1, encode_utf8(a.wave@)),
        delim(2, encode_utf8(a.manifest_hash@)),
        delim(3, encode_utf8(a.name@)),
        (4u32, false, a.total_size, Seq::<u8>::empty()),
        (5u32, false, a.file_count as u64, Seq::<u8>::empty()),
        delim(6, encode_utf8(a.uploader@)),
        (7u32, false, a.created_ms, Seq::<u8>::empty()),
    ]
}

/// A `ShareAnnouncement` as (wave, manifest hash, name, total size, file
/// count, uploader, created at); the file count is the varint truncated to
/// 32 bits.
pub open spec fn decode_share_announcement_spec(b: Seq<u8>) -> Option<
    (Seq<char>, Seq<char>, Seq<char>, u64, u32, Seq<char>, u64),
> {
    match decode_fields(b) {
        None => None,
        Some(fs) => match (text_at(fs, 1), text_at(fs, 2), text_at(fs, 3), text_at(fs, 6)) {
            (Some(w), Some(h), Some(n), Some(u)) => match (u64_at(fs, 4), u64_at(fs, 5), u64_at(fs, 7)) {
                (Some(t), Some(c), Some(cm)) => Some((w, h, n, t, c as u32, u, cm)),
                _ => None,
            },
            _ => None,
        },
    }
}

impl ShareAnnouncement {
    /// The announcement of a share.
    pub fn of_share(m: &ShareMeta) -> (a: Self)
        ensures
            a.wave@ == m.wave@,
            a.manifest_hash@ == m.manifest_hash@,
            a.name@ == m.name@,
            a.total_size == m.total_size,
            a.file_count == m.file_count,
            a.uploader@ == m.uploader@,
            a.created_ms == m.created_ms,
    {
        ShareAnnouncement {
            wave: m.wave.as_str().to_owned(),
            manifest_hash: m.manifest_hash.as_str().to_owned(),
            name: m.name.as_str().to_owned(),
            total_size: m.total_size,
            file_count: m.file_count,
            uploader: m.uploader.as_str().to_owned(),
            created_ms: m.created_ms,
        }
    }

    /// The share a peer's announcement records here: held at the sending
    /// domain, not mirrored yet.
    pub fn into_share(self, origin: &str) -> (m: ShareMeta)
        ensures
            m.wave@ == self.wave@,
            m.manifest_hash@ == self.manifest_hash@,
            m.name@ == self.name@,
            m.total_size == self.total_size,
            m.file_count == self.file_count,
            m.uploader@ == self.uploader@,
            m.origin_domain@ == origin@,
            !m.mirrored,
            m.created_ms == self.created_ms,
    {
        ShareMeta {
            manifest_hash: self.manifest_hash,
            wave: self.wave,
            name: self.name,
            total_size: self.total_size,
            file_count: self.file_count,
            uploader: self.uploader,
            origin_domain: origin.to_owned(),
            mirrored: false,
            created_ms: self.created_ms,
        }
    }

    pub fn encode(&self) -> (out: Vec<u8>)
        ensures
            out@ == fields_bytes(share_announcement_fields(*self)),
    {
        let ghost fs = share_announcement_fields(*self);
        let mut out: Vec<u8> = Vec::new();
        put_text_field(&mut out, 1, self.wave.as_str());
        put_text_field(&mut out, 2, self.manifest_hash.as_str());
        put_text_field(&mut out, 3, self.name.as_str());
        proof {
            crate::protocol::lemma_three(fs[0], fs[1], fs[2]);
            assert(fs.take(3) =~= seq![fs[0], fs[1], fs[2]]);
        }
        put_varint_field(&mut out, 4, self.total_size);
        proof {
            lemma_fields_push(fs.take(3), fs[3]);
            assert(fs.take(4) =~= fs.take(3).push(fs[3]));
        }
        put_varint_field(&mut out, 5, self.file_count as u64);
        proof {
            lemma_fields_push(fs.take(4), fs[4]);
            assert(fs.take(5) =~= fs.take(4).push(fs[4]));
        }
        put_text_field(&mut out, 6, self.uploader.as_str());
        proof {
            lemma_fields_push(fs.take(5), fs[5]);
            assert(fs.take(6) =~= fs.take(5).push(fs[5]));
        }
        put_varint_field(&mut out, 7, self.created_ms);
        proof {
            lemma_fields_push(fs.take(6), fs[6]);
            assert(fs =~= fs.take(6).push(fs[6]));
        }
        out
    }

    pub fn decode(b: &[u8]) -> (r: Option<Self>)
        ensures
            match r {
                Some(a) => decode_share_announcement_spec(b@) == Some(
                    (a.wave@, a.manifest_hash@, a.name@, a.total_size, a.file_count, a.uploader@, a.created_ms),
                ),
                None => decode_share_announcement_spec(b@) is None,
            },
    {
        let fs = match read_fields(b) {
            Some(fs) => fs,
            None => return None,
        };
        match (read_text(&fs, 1), read_text(&fs, 2), read_text(&fs, 3), read_text(&fs, 6)) {
            (Some(wave), Some(manifest_hash), Some(name), Some(uploader)) => match (
                read_u64(&fs, 4),
                read_u64(&fs, 5),
                read_u64(&fs, 7),
            ) {
                (Some(total_size), Some(count), Some(created_ms)) => Some(
                    ShareAnnouncement {
                        wave,
                        manifest_hash,
                        name,
                        total_size,
                        file_count: count as u32,
                        uploader,
                        created_ms,
                    },
                ),
                _ => None,
            },
            _ => None,
        }
    }
}

pub open spec fn chunk_fields(cs: Seq<Seq<char>>) -> Seq<(u32, bool, u64, Seq<u8>)> {
    cs.map_values(|c: Seq<char>| delim(4, encode_utf8(c)))
}

/// The fields of a `FileEntry`.
pub open spec fn file_entry_fields(f: FileEntry) -> Seq<(u32, bool, u64, Seq<u8>)> {
    seq![delim(1, encode_utf8(f.path@)), (2u32, false, f.size, Seq::<u8>::empty()), delim(3, encode_utf8(f.mime@))]
        + chunk_fields(string_views(f.chunks@))
}

/// A `FileEntry` as (path, size, mime, chunk keys).
pub open spec fn decode_file_entry_spec(b: Seq<u8>) -> Option<(Seq<char>, u64, Seq<char>, Seq<Seq<char>>)> {
    match decode_fields(b) {
        None => None,
        Some(fs) => match (text_at(fs, 1), u64_at(fs, 2), text_at(fs, 3), texts_at(fs, 4)) {
            (Some(p), Some(s), Some(m), Some(cs)) => Some((p, s, m, cs)),
            _ => None,
        },
    }
}

pub open spec fn file_entry_view(f: FileEntry) -> (Seq<char>, u64, Seq<char>, Seq<Seq<char>>) {
    (f.path@, f.size, f.mime@, string_views(f.chunks@))
}

/// Decoding each embedded entry, in order; `None` when one fails.
pub open spec fn decode_entries(bs: Seq<Seq<u8>>) -> Option<Seq<(Seq<char>, u64, Seq<char>, Seq<Seq<char>>)>>
    decreases bs.len(),
{
    if bs.len() == 0 {
        Some(Seq::empty())
    } else {
        match (decode_entries(bs.drop_last()), decode_file_entry_spec(bs.last())) {
            (Some(es), Some(e)) => Some(es.push(e)),
            _ => None,
        }
    }
}

/// A `FolderManifest` as (name, total size, created at, files).
pub open spec fn decode_manifest_spec(b: Seq<u8>) -> Option<
    (Seq<char>, u64, u64, Seq<(Seq<char>, u64, Seq<char>, Seq<Seq<char>>)>),
> {
    match decode_fields(b) {
        None => None,
        Some(fs) => if !kind_ok(fs, 4, true) {
            None
        } else {
            match (text_at(fs, 1), u64_at(fs, 2), u64_at(fs, 3), decode_entries(all_with_tag(fs, 4))) {
                (Some(n), Some(t), Some(c), Some(es)) => Some((n, t, c, es)),
                _ => None,
            }
        },
    }
}

pub fn encode_file_entry(f: &FileEntry) -> (out: Vec<u8>)
    ensures
        out@ == fields_bytes(file_entry_fields(*f)),
{
    let ghost head = seq![
        delim(1, encode_utf8(f.path@)),
        (2u32, false, f.size, Seq::<u8>::empty()),
        delim(3, encode_utf8(f.mime@)),
    ];
    let ghost cs = chunk_fields(string_views(f.chunks@));
    let mut out: Vec<u8> = Vec::new();
    put_text_field(&mut out, 1, f.path.as_str());
    put_varint_field(&mut out, 2, f.size);
    put_text_field(&mut out, 3, f.mime.as_str());
    proof {
        crate::protocol::lemma_three(head[0], head[1], head[2]);
        assert(head =~= seq![head[0], head[1], head[2]]);
        assert(head + cs.take(0) =~= head);
    }
    let mut i: usize = 0;
    while i < f.chunks.len()
        invariant
            i <= f.chunks.len(),
            cs == chunk_fields(string_views(f.chunks@)),
            out@ == fields_bytes(head + cs.take(i as int)),
        decreases f.chunks.len() - i,
    {
        put_text_field(&mut out, 4, f.chunks[i].as_str());
        proof {
            assert(cs[i as int] == delim(4, encode_utf8(f.chunks@[i as int]@)));
            lemma_fields_push(head + cs.take(i as int), cs[i as int]);
            assert(head + cs.take(i + 1) =~= (head + cs.take(i as int)).push(cs[i as int]));
        }
        i += 1;
    }
    proof { assert(cs.take(f.chunks.len() as int) =~= cs); }
    out
}

pub open spec fn manifest_fields(m: FolderManifest) -> Seq<(u32, bool, u64, Seq<u8>)> {
    seq![
        delim(1, encode_utf8(m.name@)),
        (2u32, false, m.total_size, Seq::<u8>::empty()),
        (3u32, false, m.created_ms, Seq::<u8>::empty()),
    ] + m.files@.map_values(|f: FileEntry| delim(4, fields_bytes(file_entry_fields(f))))
}

/// The bytes of a folder manifest (its key in the blob store is the
/// share's id).
pub fn encode_manifest(m: &FolderManifest) -> (out: Vec<u8>)
    ensures
        out@ == fields_bytes(manifest_fields(*m)),
{
    let ghost head = seq![
        delim(1, encode_utf8(m.name@)),
        (2u32, false, m.total_size, Seq::<u8>::empty()),
        (3u32, false, m.created_ms, Seq::<u8>::empty()),
    ];
    let ghost fs = m.files@.map_values(|f: FileEntry| delim(4, fields_bytes(file_entry_fields(f))));
    let mut out: Vec<u8> = Vec::new();
    put_text_field(&mut out, 1, m.name.as_str());
    put_varint_field(&mut out, 2, m.total_size);
    put_varint_field(&mut out, 3, m.created_ms);
    proof {
        crate::protocol::lemma_three(head[0], head[1], head[2]);
        assert(head =~= seq![head[0], head[1], head[2]]);
        assert(head + fs.take(0) =~= head);
    }
    let mut i: usize = 0;
    while i < m.files.len()
        invariant
            i <= m.files.len(),
            fs == m.files@.map_values(|f: FileEntry| delim(4, fields_bytes(file_entry_fields(f)))),
            out@ == fields_bytes(head + fs.take(i as int)),
        decreases m.files.len() - i,
    {
        let inner = encode_file_entry(&m.files[i]);
        put_bytes_field(&mut out, 4, inner.as_slice());
        proof {
            assert(fs[i as int] == delim(4, inner@));
            lemma_fields_push(head + fs.take(i as int), fs[i as int]);
            assert(head + fs.take(i + 1) =~= (head + fs.take(i as int)).push(fs[i as int]));
        }
        i += 1;
    }
    proof { assert(fs.take(m.files.len() as int) =~= fs); }
    out
}

pub fn decode_file_entry(b: &[u8]) -> (r: Option<FileEntry>)
    ensures
        match r {
            Some(f) => decode_file_entry_spec(b@) == Some(file_entry_view(f)),
            None => decode_file_entry_spec(b@) is None,
        },
{
    let fs = match read_fields(b) {
        Some(fs) => fs,
        None => return None,
    };
    match (read_text(&fs, 1), read_u64(&fs, 2), read_text(&fs, 3), read_texts(&fs, 4)) {
        (Some(path), Some(size), Some(mime), Some(chunks)) => Some(FileEntry { path, size, mime, chunks }),
        _ => None,
    }
}

pub open spec fn manifest_view(m: FolderManifest) -> (Seq<char>, u64, u64, Seq<(Seq<char>, u64, Seq<char>, Seq<Seq<char>>)>) {
    (m.name@, m.total_size, m.created_ms, m.files@.map_values(|f: FileEntry| file_entry_view(f)))
}

/// Reads a folder manifest.
pub fn decode_manifest(b: &[u8]) -> (r: Option<FolderManifest>)
    ensures
        match r {
            Some(m) => decode_manifest_spec(b@) == Some(manifest_view(m)),
            None => decode_manifest_spec(b@) is None,
        },
{
    let fs = match read_fields(b) {
        Some(fs) => fs,
        None => return None,
    };
    if !check_kind(&fs, 4, true) {
        return None;
    }
    let name = match read_text(&fs, 1) {
        Some(x) => x,
        None => return None,
    };
    let (total_size, created_ms) = match (read_u64(&fs, 2), read_u64(&fs, 3)) {
        (Some(t), Some(c)) => (t, c),
        _ => return None,
    };
    let all = get_all(&fs, 4);
    let ghost av = all@.map_values(|x: Vec<u8>| x@);
    let mut files: Vec<FileEntry> = Vec::new();
    let mut i: usize = 0;
    assert(av.take(0) =~= Seq::<Seq<u8>>::empty());
    while i < all.len()
        invariant
            i <= all.len(),
            av == all@.map_values(|x: Vec<u8>| x@),
            av == all_with_tag(fields_view(fs@), 4),
            decode_fields(b@) == Some(fields_view(fs@)),
            kind_ok(fields_view(fs@), 4, true),
            text_at(fields_view(fs@), 1) == Some(name@),
            u64_at(fields_view(fs@), 2) == Some(total_size),
            u64_at(fields_view(fs@), 3) == Some(created_ms),
            decode_entries(av.take(i as int)) == Some(files@.map_values(|f: FileEntry| file_entry_view(f))),
        decreases all.len() - i,
    {
        assert(av.take(i + 1).drop_last() =~= av.take(i as int));
        assert(av.take(i + 1).last() == all@[i as int]@);
        match decode_file_entry(all[i].as_slice()) {
            None => {
                assert(decode_entries(av.take(i + 1)) is None);
                proof { lemma_entries_prefix_none(av, i + 1); }
                return None;
            },
            Some(f) => {
                let ghost before = files@;
                files.push(f);
                assert(files@.map_values(|f: FileEntry| file_entry_view(f)) =~= before.map_values(
                    |f: FileEntry| file_entry_view(f),
                ).push(file_entry_view(f)));
            },
        }
        i += 1;
    }
    assert(av.take(all.len() as int) =~= av);
    Some(FolderManifest { name, total_size, created_ms, files })
}

proof fn lemma_entries_prefix_none(bs: Seq<Seq<u8>>, k: int)
    requires
        0 <= k <= bs.len(),
        decode_entries(bs.take(k)) is None,
    ensures
        decode_entries(bs) is None,
    decreases bs.len() - k,
{
    if k < bs.len() {
        assert(bs.take(k + 1).drop_last() =~= bs.take(k));
        lemma_entries_prefix_none(bs, k + 1);
    } else {
        assert(bs.take(k) =~= bs);
    }
}

} // verus!
