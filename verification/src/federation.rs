//! Server-to-server federation, protocol v0: which peers a wave involves,
//! how requests are signed and checked, and which announcements a replica
//! accepts.
//!
//! Every request is signed with the sender's server key over
//! `"protowave-fed-v0\n" ‖ path ‖ "\n" ‖ body`; receivers pin each peer's
//! key on first contact. Only a wave's home domain may announce its
//! membership, and announcements never lower the ACL version.

use vstd::prelude::*;
use crate::common::{ApiError, utf8_len};
use crate::hexcode::{hex_decode, hex_decode_str, hex_of};
use crate::id::{parse_participant, parse_wave_id, ParticipantId, WaveId};
use crate::signing::{
    ed25519_accepts, ed25519_point_ok, ed25519_public_of, ed25519_signature, ServerKeypair,
    ServerPublicKey, Signature,
};
use crate::store::WaveMeta;
use crate::text::{insert_sorted_unique, str_eq, string_views, strictly_sorted};
use crate::wire::append_bytes;
use crate::agent::{InferenceHub, InferenceProvider, ModelPool, Route, pool_lookup, pool_after, provenance_of, provider_model, route_from};
use crate::fedwire::{UpdateBatch, WaveAnnouncement};
use crate::engine::{Applied, EngineError, LiveWavelet, integrates_after, yrs_update_decodes};
use crate::id::{WaveletName, parse_wavelet_name, result_view};
use crate::models::{UserModel, owner_local, owner_local_of};

verus! {

pub const PROTOCOL_VERSION: u32 = 0;

/// Static peer resolution: domain to base URL, and our own public URL.
#[derive(Debug, Clone, Default)]
pub struct FederationConfig {
    /// Base URL peers can reach us at.
    pub public_url: String,
    /// Peer domain and its base URL; the first entry for a domain counts.
    pub peers: Vec<(String, String)>,
}

impl FederationConfig {
    /// The base URL of a peer domain.
    pub fn peer_url(&self, domain: &str) -> (r: Option<&str>)
        ensures
            match r {
                Some(u) => exists|i: int|
                    0 <= i < self.peers@.len() && self.peers@[i].0@ == domain@ && self.peers@[i].1@
                        == u@ && forall|j: int| 0 <= j < i ==> self.peers@[j].0@ != domain@,
                None => forall|i: int| 0 <= i < self.peers@.len() ==> self.peers@[i].0@ != domain@,
            },
    {
        let mut i: usize = 0;
        while i < self.peers.len()
            invariant
                i <= self.peers@.len(),
                forall|j: int| 0 <= j < i ==> self.peers@[j].0@ != domain@,
            decreases self.peers.len() - i,
        {
            if str_eq(self.peers[i].0.as_str(), domain) {
                return Some(self.peers[i].1.as_str());
            }
            i += 1;
        }
        None
    }
}

/// Whether participant text `p` parses and its domain is `d`.
pub open spec fn participant_domain_is(p: Seq<char>, d: Seq<char>) -> bool {
    parse_participant(p) is Ok && (parse_participant(p)->Ok_0).1 == d
}

/// The remote domains of a participant list: every domain, other than ours,
/// of a participant that parses.
pub open spec fn remote_domain_set(participants: Seq<Seq<char>>, ours: Seq<char>) -> Set<Seq<char>> {
    Set::new(
        |d: Seq<char>|
            d != ours && exists|i: int|
                0 <= i < participants.len() && participant_domain_is(#[trigger] participants[i], d),
    )
}

/// Every remote domain with a participant on the wave, sorted and without
/// duplicates.
pub fn remote_domains(meta: &WaveMeta, our_domain: &str) -> (out: Vec<String>)
    ensures
        strictly_sorted(string_views(out@)),
        string_views(out@).to_set() == remote_domain_set(
            string_views(meta.participants@),
            our_domain@,
        ),
{
    let mut out: Vec<String> = Vec::new();
    let ghost ps = string_views(meta.participants@);
    let mut i: usize = 0;
    assert(string_views(out@).to_set() =~= Set::<Seq<char>>::empty());
    while i < meta.participants.len()
        invariant
            i <= meta.participants@.len(),
            ps == string_views(meta.participants@),
            strictly_sorted(string_views(out@)),
            string_views(out@).to_set() == Set::new(
                |d: Seq<char>|
                    d != our_domain@ && exists|k: int|
                        0 <= k < i && participant_domain_is(#[trigger] ps[k], d),
            ),
        decreases meta.participants.len() - i,
    {
        let ghost before = string_views(out@).to_set();
        assert(ps[i as int] == meta.participants@[i as int]@);
        match ParticipantId::parse(meta.participants[i].as_str()) {
            Ok(p) => {
                let d = p.domain();
                if !str_eq(d, our_domain) {
                    insert_sorted_unique(&mut out, d.to_owned());
                }
                assert(string_views(out@).to_set() =~= Set::new(
                    |d: Seq<char>|
                        d != our_domain@ && exists|k: int|
                            0 <= k < i + 1 && participant_domain_is(#[trigger] ps[k], d),
                )) by {
                    assert forall|x: Seq<char>|
                        #![trigger string_views(out@).to_set().contains(x)]
                        string_views(out@).to_set().contains(x) <==> (x != our_domain@
                            && exists|k: int|
                            0 <= k < i + 1 && participant_domain_is(#[trigger] ps[k], x)) by {
                        if x != our_domain@ && participant_domain_is(ps[i as int], x) {
                        }
                        if (exists|k: int| 0 <= k < i + 1 && participant_domain_is(#[trigger] ps[k], x)) {
                            let k = choose|k: int| 0 <= k < i + 1 && participant_domain_is(#[trigger] ps[k], x);
                            if k < i {
                                assert(before.contains(x) || x == our_domain@);
                            }
                        }
                    }
                }
            },
            Err(_) => {
                assert(string_views(out@).to_set() =~= Set::new(
                    |d: Seq<char>|
                        d != our_domain@ && exists|k: int|
                            0 <= k < i + 1 && participant_domain_is(#[trigger] ps[k], d),
                )) by {
                    assert forall|x: Seq<char>|
                        #![trigger string_views(out@).to_set().contains(x)]
                        string_views(out@).to_set().contains(x) <==> (x != our_domain@
                            && exists|k: int|
                            0 <= k < i + 1 && participant_domain_is(#[trigger] ps[k], x)) by {
                        if (exists|k: int| 0 <= k < i + 1 && participant_domain_is(#[trigger] ps[k], x)) {
                            let k = choose|k: int| 0 <= k < i + 1 && participant_domain_is(#[trigger] ps[k], x);
                            assert(k != i);
                        }
                    }
                }
            },
        }
        i += 1;
    }
    assert(remote_domain_set(ps, our_domain@) =~= Set::new(
        |d: Seq<char>|
            d != our_domain@ && exists|k: int|
                0 <= k < meta.participants.len() && participant_domain_is(#[trigger] ps[k], d),
    ));
    out
}

/// Whether some participant of the wave is on `domain`.
pub fn domain_is_participant(meta: &WaveMeta, domain: &str) -> (b: bool)
    ensures
        b == exists|i: int|
            0 <= i < meta.participants@.len() && participant_domain_is(
                #[trigger] string_views(meta.participants@)[i],
                domain@,
            ),
{
    let ghost ps = string_views(meta.participants@);
    let mut i: usize = 0;
    while i < meta.participants.len()
        invariant
            i <= meta.participants@.len(),
            ps == string_views(meta.participants@),
            forall|k: int| 0 <= k < i ==> !participant_domain_is(#[trigger] ps[k], domain@),
        decreases meta.participants.len() - i,
    {
        assert(ps[i as int] == meta.participants@[i as int]@);
        match ParticipantId::parse(meta.participants[i].as_str()) {
            Ok(p) => {
                if str_eq(p.domain(), domain) {
                    return true;
                }
            },
            Err(_) => {},
        }
        i += 1;
    }
    false
}

// ---------------------------------------------------------------------------
// Signed requests
// ---------------------------------------------------------------------------

/// The domain separator of protocol v0 signatures: `protowave-fed-v0\n`.
pub open spec fn sig_context() -> Seq<u8> {
    seq![112u8, 114, 111, 116, 111, 119, 97, 118, 101, 45, 102, 101, 100, 45, 118, 48, 10]
}

/// The bytes a request signature covers.
pub open spec fn signing_input_of(path: Seq<u8>, body: Seq<u8>) -> Seq<u8> {
    sig_context() + path + seq![10u8] + body
}

/// `"protowave-fed-v0\n" ‖ path ‖ "\n" ‖ body`.
pub fn signing_input(path: &str, body: &[u8]) -> (out: Vec<u8>)
    ensures
        out@ == signing_input_of(vstd::utf8::encode_utf8(path@), body@),
{
    let mut out: Vec<u8> = Vec::new();
    let ctx: [u8; 17] = [112, 114, 111, 116, 111, 119, 97, 118, 101, 45, 102, 101, 100, 45, 118, 48, 10];
    append_bytes(&mut out, &ctx);
    assert(ctx@ =~= sig_context());
    append_bytes(&mut out, path.as_bytes());
    out.push(10);
    append_bytes(&mut out, body);
    assert(out@ =~= signing_input_of(vstd::utf8::encode_utf8(path@), body@));
    out
}

/// The hex signature header value for a request (`Federation::sign`).
pub fn sign_request(keypair: &ServerKeypair, path: &str, body: &[u8]) -> (s: String)
    ensures
        s@ == hex_of(ed25519_signature(keypair@, signing_input_of(vstd::utf8::encode_utf8(path@), body@))),
        ed25519_accepts(
            ed25519_public_of(keypair@),
            signing_input_of(vstd::utf8::encode_utf8(path@), body@),
            ed25519_signature(keypair@, signing_input_of(vstd::utf8::encode_utf8(path@), body@)),
        ),
{
    let msg = signing_input(path, body);
    keypair.sign(msg.as_slice()).to_hex()
}

/// Why an inbound federated request was refused (all answered 401).
#[derive(Debug, Clone, Copy, PartialEq, Eq)]
pub enum PeerReject {
    MissingDomainHeader,
    MissingSignatureHeader,
    BadSignatureEncoding,
    BadSignatureLength,
    UnknownPeer,
    CorruptPinnedKey,
    VerificationFailed,
}

/// The message sent with a refusal.
pub open spec fn peer_reject_text(r: PeerReject) -> Seq<char> {
    match r {
        PeerReject::MissingDomainHeader => "missing domain header"@,
        PeerReject::MissingSignatureHeader => "missing signature header"@,
        PeerReject::BadSignatureEncoding => "bad signature encoding"@,
        PeerReject::BadSignatureLength => "bad signature length"@,
        PeerReject::UnknownPeer => "unknown peer"@,
        PeerReject::CorruptPinnedKey => "corrupt pinned key"@,
        PeerReject::VerificationFailed => "signature verification failed"@,
    }
}

impl PeerReject {
    /// The message sent with the 401.
    pub fn message(self) -> (s: &'static str)
        ensures
            s@ == peer_reject_text(self),
    {
        match self {
            PeerReject::MissingDomainHeader => "missing domain header",
            PeerReject::MissingSignatureHeader => "missing signature header",
            PeerReject::BadSignatureEncoding => "bad signature encoding",
            PeerReject::BadSignatureLength => "bad signature length",
            PeerReject::UnknownPeer => "unknown peer",
            PeerReject::CorruptPinnedKey => "corrupt pinned key",
            PeerReject::VerificationFailed => "signature verification failed",
        }
    }
}

/// Reads the signature header: hex of exactly 64 bytes.
pub fn parse_signature_header(sig_hex: &str) -> (r: Result<Signature, PeerReject>)
    ensures
        match r {
            Ok(s) => hex_decode(sig_hex@) == Some(s.0@),
            Err(e) => match hex_decode(sig_hex@) {
                None => e == PeerReject::BadSignatureEncoding,
                Some(b) => b.len() != 64 && e == PeerReject::BadSignatureLength,
            },
        },
{
    let bytes = match hex_decode_str(sig_hex) {
        Some(b) => b,
        None => return Err(PeerReject::BadSignatureEncoding),
    };
    match Signature::from_bytes(bytes.as_slice()) {
        Ok(s) => Ok(s),
        Err(_) => Err(PeerReject::BadSignatureLength),
    }
}

/// Checks a request signature against a pinned key given as hex: the key
/// must decode to a curve point and ed25519 must accept the signature over
/// the request's signing input.
pub fn check_request_signature(key_hex: &str, path: &str, body: &[u8], sig: &Signature) -> (r:
    Result<(), PeerReject>)
    ensures
        match r {
            Ok(_) => hex_decode(key_hex@) matches Some(k) && k.len() == 32 && ed25519_point_ok(k)
                && ed25519_accepts(k, signing_input_of(vstd::utf8::encode_utf8(path@), body@), sig.0@),
            Err(e) => match hex_decode(key_hex@) {
                Some(k) if k.len() == 32 && ed25519_point_ok(k) => e == PeerReject::VerificationFailed
                    && !ed25519_accepts(k, signing_input_of(vstd::utf8::encode_utf8(path@), body@), sig.0@),
                _ => e == PeerReject::CorruptPinnedKey,
            },
        },
{
    let key_bytes = match hex_decode_str(key_hex) {
        Some(b) => b,
        None => return Err(PeerReject::CorruptPinnedKey),
    };
    let key = match ServerPublicKey::from_bytes(key_bytes.as_slice()) {
        Ok(k) => k,
        Err(_) => return Err(PeerReject::CorruptPinnedKey),
    };
    let msg = signing_input(path, body);
    match key.verify(msg.as_slice(), sig) {
        Ok(()) => Ok(()),
        Err(_) => Err(PeerReject::VerificationFailed),
    }
}

/// Accepts a peer's `/.well-known/protowave` answer: it must name the
/// domain asked about and carry a 64-byte hex key (missing fields count as
/// empty).
pub fn accept_well_known(peer_domain: &str, claimed_domain: &str, key: &str) -> (r: Option<String>)
    ensures
        match r {
            Some(k) => claimed_domain@ == peer_domain@ && utf8_len(key@) == 64 && k@ == key@,
            None => claimed_domain@ != peer_domain@ || utf8_len(key@) != 64,
        },
{
    if !str_eq(claimed_domain, peer_domain) || key.len() != 64 {
        None
    } else {
        Some(key.to_owned())
    }
}

// ---------------------------------------------------------------------------
// Control plane: membership announcements
// ---------------------------------------------------------------------------

/// Deciding an announcement of `wave` from authenticated peer `peer`:
/// `wave` must be a wave id whose home domain is `peer`, and the ACL version
/// must not be below the replica's.
pub open spec fn announcement_fault(
    wave: Seq<char>,
    peer: Seq<char>,
    existing_acl: Option<u64>,
    ann_acl: u64,
) -> Option<(u16, Seq<char>)> {
    match parse_wave_id(wave) {
        Err(_) => Some((400u16, "bad wave id"@)),
        Ok(w) => if w.0 != peer {
            Some((403u16, "announcement not from home server"@))
        } else {
            match existing_acl {
                Some(a) => if ann_acl < a {
                    Some((409u16, "stale acl version"@))
                } else {
                    None
                },
                None => None,
            }
        },
    }
}

/// Checks an inbound wave announcement: the wave id must parse, it must come
/// from the wave's home domain, and it must not lower the ACL version.
pub fn check_announcement(wave: &str, peer: &str, existing_acl: Option<u64>, ann_acl: u64) -> (r:
    Result<(), ApiError>)
    ensures
        match r {
            Ok(_) => announcement_fault(wave@, peer@, existing_acl, ann_acl) is None,
            Err(e) => announcement_fault(wave@, peer@, existing_acl, ann_acl) == Some((e.0, e.1@)),
        },
{
    let w = match WaveId::parse(wave) {
        Ok(w) => w,
        Err(_) => return Err(ApiError::bad_request("bad wave id")),
    };
    if !str_eq(w.domain(), peer) {
        return Err(ApiError::forbidden("announcement not from home server"));
    }
    match existing_acl {
        Some(a) => {
            if ann_acl < a {
                return Err(ApiError::with_status(409, "stale acl version"));
            }
        },
        None => {},
    }
    Ok(())
}

/// Whether an anti-entropy diff holds anything: an empty yrs update encodes
/// in two bytes.
pub fn diff_has_content(diff: &[u8]) -> (b: bool)
    ensures
        b == (diff@.len() > 2),
{
    diff.len() > 2
}

/// The federation endpoints.
pub const PUSH_PATH: &'static str = "/federation/v0/push";
pub const SYNC_PATH: &'static str = "/federation/v0/sync";
pub const ANNOUNCE_PATH: &'static str = "/federation/v0/announce";
pub const INFER_PATH: &'static str = "/federation/v0/infer";

/// The headers that carry a request's sender and signature.
pub const DOMAIN_HEADER: &'static str = "x-protowave-domain";
pub const SIGNATURE_HEADER: &'static str = "x-protowave-signature";

/// A federated request about a wave is served only to a domain holding a
/// participant on it.
pub fn accept_peer_on_wave(meta: Option<&WaveMeta>, peer: &str) -> (r: Result<(), ApiError>)
    ensures
        match meta {
            None => r matches Err(e) && e.0 == 404 && e.1@ == "unknown wave"@,
            Some(m) => if exists|i: int|
                0 <= i < m.participants@.len() && participant_domain_is(
                    #[trigger] string_views(m.participants@)[i],
                    peer@,
                ) {
                r is Ok
            } else {
                r matches Err(e) && e.0 == 403 && e.1@ == "not a participant domain"@
            },
        },
{
    match meta {
        None => Err(ApiError::with_status(404, "unknown wave")),
        Some(m) => if domain_is_participant(m, peer) {
            Ok(())
        } else {
            Err(ApiError::forbidden("not a participant domain"))
        },
    }
}

/// Why a pushed update batch is refused before it is applied.
pub open spec fn push_fault(meta: Option<&WaveMeta>, peer: Seq<char>, batch_acl: u64) -> Option<(u16, Seq<char>)> {
    match meta {
        None => Some((404u16, "unknown wave"@)),
        Some(m) => if !(exists|i: int|
            0 <= i < m.participants@.len() && participant_domain_is(#[trigger] string_views(m.participants@)[i], peer)) {
            Some((403u16, "not a participant domain"@))
        } else if batch_acl < m.acl_version {
            Some((409u16, "stale acl version"@))
        } else {
            None
        },
    }
}

/// Checks a pushed update batch against the stored record of its wave, in
/// order: the wave must be known, the sending domain must hold one of its
/// participants, and the batch must have been written under the ACL
/// version stored here or a later one (a batch from before a membership
/// change is refused).
pub fn accept_push(meta: Option<&WaveMeta>, peer: &str, batch_acl: u64) -> (r: Result<(), ApiError>)
    ensures
        match r {
            Ok(_) => push_fault(meta, peer@, batch_acl) is None,
            Err(e) => push_fault(meta, peer@, batch_acl) == Some((e.0, e.1@)),
        },
{
    match accept_peer_on_wave(meta, peer) {
        Ok(()) => {},
        Err(e) => return Err(e),
    }
    match meta {
        Some(m) => if batch_acl < m.acl_version {
            Err(ApiError::with_status(409, "stale acl version"))
        } else {
            Ok(())
        },
        None => Err(ApiError::with_status(404, "unknown wave")),
    }
}

/// Handles a pushed update batch on the open wavelet it names: a batch that
/// `accept_push` refuses is answered with that refusal and not applied;
/// otherwise its update is applied, and one that does not decode is a bad
/// request carrying the engine's error as Rust debug-formats it. An update
/// that decodes but does not integrate makes yrs panic; it is not admitted.
pub fn apply_push(meta: Option<&WaveMeta>, peer: &str, batch: &UpdateBatch, live: &mut LiveWavelet) -> (r: Result<
    Applied,
    ApiError,
>)
    requires
        old(live).wf(),
        old(live).updates() < u64::MAX,
        integrates_after(old(live).history(), batch.update@),
    ensures
        final(live).wf(),
        push_fault(meta, peer@, batch.acl_version) matches Some(f) ==> (r matches Err(e) && (e.0, e.1@) == f
            && final(live).history() == old(live).history() && final(live).updates() == old(live).updates()),
        push_fault(meta, peer@, batch.acl_version) is None ==> match r {
            Ok(a) => yrs_update_decodes(batch.update@) && final(live).history() == old(live).history().push(
                batch.update@,
            ) && a.count == old(live).updates() + 1,
            Err(e) => e.0 == 400 && !yrs_update_decodes(batch.update@) && final(live).history() == old(
                live,
            ).history() && exists|m: Seq<char>| e.1@ == "BadPayload("@ + crate::id::debug_text(m) + ")"@,
        },
        final(live).wavelet() == old(live).wavelet(),
        final(live).awareness_view() == old(live).awareness_view(),
{
    match accept_push(meta, peer, batch.acl_version) {
        Ok(()) => {},
        Err(e) => return Err(e),
    }
    match live.apply(batch.update.as_slice()) {
        Ok(a) => Ok(a),
        Err(EngineError::BadPayload(m)) => {
            let mut msg = "BadPayload(".to_owned();
            let q = crate::id::debug_str(m.as_str());
            msg.append(q.as_str());
            msg.append(")");
            Err(ApiError::bad_request(msg.as_str()))
        },
        Err(_) => Err(ApiError::bad_request("bad update")),
    }
}

/// The wavelet a pushed batch or sync request names.
pub fn parse_peer_wavelet(wavelet: &str) -> (r: Result<WaveletName, ApiError>)
    ensures
        match parse_wavelet_name(wavelet@) {
            Ok(n) => r matches Ok(name) && name@ == n,
            Err(_) => r matches Err(e) && e.0 == 400 && e.1@ == "bad wavelet name"@,
        },
{
    match WaveletName::parse(wavelet) {
        Ok(n) => Ok(n),
        Err(_) => Err(ApiError::bad_request("bad wavelet name")),
    }
}

/// The URL of a signed request to a peer: its base URL and the path, or
/// the reason there is none.
pub fn peer_endpoint(config: &FederationConfig, domain: &str, path: &str) -> (r: Result<String, String>)
    ensures
        match r {
            Ok(u) => exists|i: int|
                0 <= i < config.peers@.len() && config.peers@[i].0@ == domain@ && u@ == config.peers@[i].1@
                    + path@ && forall|j: int| 0 <= j < i ==> config.peers@[j].0@ != domain@,
            Err(m) => m@ == "no peer URL for "@ + domain@ && forall|i: int|
                0 <= i < config.peers@.len() ==> config.peers@[i].0@ != domain@,
        },
{
    match config.peer_url(domain) {
        Some(base) => {
            let mut u = base.to_owned();
            u.append(path);
            Ok(u)
        },
        None => {
            let mut m = "no peer URL for ".to_owned();
            m.append(domain);
            Err(m)
        },
    }
}

/// The model a peer's inference request is answered with: this node's
/// default when it names none, else the named pool model, which must be
/// enabled and shared with the federation.
pub fn infer_target(
    requested: &str,
    hub: &InferenceHub,
    named: Option<&UserModel>,
    pool: &mut ModelPool,
) -> (r: Result<Route, ApiError>)
    ensures
        requested@.len() == 0 ==> match hub.current() {
            Some(p) => r matches Ok(route) && route.provider@ == p && route.provenance@ == provider_model(p),
            None => r matches Err(e) && e.0 == 503 && e.1@ == "no model here"@,
        },
        requested@.len() == 0 ==> final(pool).entries() == old(pool).entries(),
        requested@.len() > 0 ==> match named {
            Some(m) => if m.enabled && m.scope@ == "federation"@ {
                &&& r matches Ok(route) && route.provenance@ == provenance_of(*m) && route.provider@
                    == pool_lookup(old(pool).entries(), m.base@, m.model@)
                &&& final(pool).entries() == pool_after(old(pool).entries(), m.base@, m.model@)
            } else {
                r matches Err(e) && e.0 == 404 && e.1@ == "no such federation model"@
            },
            None => r matches Err(e) && e.0 == 404 && e.1@ == "no such federation model"@,
        },
{
    if requested.is_empty() {
        return match hub.get() {
            Some(p) => {
                let provenance = p.model();
                Ok(Route { provider: p, provenance })
            },
            None => Err(ApiError::with_status(503, "no model here")),
        };
    }
    match named {
        Some(m) => {
            if m.enabled && str_eq(m.scope.as_str(), "federation") {
                Ok(route_from(pool, m))
            } else {
                Err(ApiError::with_status(404, "no such federation model"))
            }
        },
        None => Err(ApiError::with_status(404, "no such federation model")),
    }
}

/// A pool model as advertised in `/.well-known/protowave`: never its base URL.
#[derive(Debug)]
pub struct AdvertisedModel {
    pub id: String,
    pub label: String,
    pub model: String,
    /// The owner's local part.
    pub owner: String,
}

pub open spec fn federation_shared(m: UserModel) -> bool {
    m.enabled && m.scope@ == "federation"@
}

/// The advertisements of the enabled, federation-scoped models, in order.
pub open spec fn advertised(models: Seq<UserModel>) -> Seq<(Seq<char>, Seq<char>, Seq<char>, Seq<char>)>
    decreases models.len(),
{
    if models.len() == 0 {
        Seq::empty()
    } else {
        let m = models.last();
        let r = advertised(models.drop_last());
        if federation_shared(m) {
            r.push((m.id@, m.label@, m.model@, owner_local_of(m.owner@)))
        } else {
            r
        }
    }
}

pub fn advertised_models(models: &Vec<UserModel>) -> (r: Vec<AdvertisedModel>)
    ensures
        r@.map_values(|a: AdvertisedModel| (a.id@, a.label@, a.model@, a.owner@)) == advertised(models@),
{
    let mut r: Vec<AdvertisedModel> = Vec::new();
    let mut i: usize = 0;
    assert(models@.take(0) =~= Seq::<UserModel>::empty());
    while i < models.len()
        invariant
            i <= models.len(),
            r@.map_values(|a: AdvertisedModel| (a.id@, a.label@, a.model@, a.owner@)) == advertised(models@.take(i as int)),
        decreases models.len() - i,
    {
        let m = &models[i];
        assert(models@.take(i + 1).drop_last() =~= models@.take(i as int));
        assert(models@.take(i + 1).last() == *m);
        if m.enabled && str_eq(m.scope.as_str(), "federation") {
            let a = AdvertisedModel {
                id: m.id.as_str().to_owned(),
                label: m.label.as_str().to_owned(),
                model: m.model.as_str().to_owned(),
                owner: owner_local(m.owner.as_str()),
            };
            let ghost before = r@;
            r.push(a);
            assert(r@.map_values(|a: AdvertisedModel| (a.id@, a.label@, a.model@, a.owner@)) =~= before.map_values(
                |a: AdvertisedModel| (a.id@, a.label@, a.model@, a.owner@),
            ).push((m.id@, m.label@, m.model@, owner_local_of(m.owner@))));
        }
        i += 1;
    }
    assert(models@.take(models.len() as int) =~= models@);
    r
}

/// The wave record an accepted announcement writes: the announced fields,
/// activity now.
pub fn announced_meta(a: WaveAnnouncement, now_ms: u64) -> (m: WaveMeta)
    ensures
        m.wave@ == a.wave@,
        m.title@ == a.title@,
        m.participants@ == a.participants@,
        m.created_by@ == a.created_by@,
        m.created_ms == a.created_ms,
        m.last_activity_ms == now_ms,
        m.acl_version == a.acl_version,
        m.translation_enabled == a.translation_enabled,
{
    WaveMeta {
        wave: a.wave,
        title: a.title,
        participants: a.participants,
        created_by: a.created_by,
        created_ms: a.created_ms,
        last_activity_ms: now_ms,
        acl_version: a.acl_version,
        translation_enabled: a.translation_enabled,
    }
}

} // verus!
