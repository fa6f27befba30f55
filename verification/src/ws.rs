//! WebSocket sessions: the frames a session sends, how an inbound frame is
//! read, and the decisions of subscribing, syncing and fan-out. The
//! session loop itself (socket, tasks, channels) runs around this library.

use vstd::prelude::*;
use crate::engine::{EngineError, EventKind, WaveletEvent, LiveWavelet, integrates_after, yrs_state_vector_of, yrs_diff_of, effective_state_vector, yrs_state_vector_decodes, yrs_update_decodes};
use crate::id::{ParticipantId, WaveletName, IdFault, id_error_text, participant_text, parse_wavelet_name, result_view};
use crate::protocol::{
    law_control_roundtrip, law_sync_roundtrip, law_awareness_roundtrip,
    ControlKind, ControlView, SyncKind, SyncView, control_bytes, sync_bytes, awareness_bytes, encode_control,
    encode_sync, encode_awareness, decode_control, decode_sync, decode_awareness, decode_control_spec,
    decode_sync_spec, decode_awareness_spec,
};
use crate::store::WaveMeta;
use crate::text::str_eq;
use crate::waves::{on_wave, is_participant};
use crate::wire::{Channel, Envelope, envelope_bytes, channel_code, decode_envelope, append_bytes, law_envelope_roundtrip};

verus! {

// ---------------------------------------------------------------------------
// Outbound frames
// ---------------------------------------------------------------------------

/// The frame of a control message.
pub open spec fn control_frame_of(c: ControlView) -> Seq<u8> {
    envelope_bytes(channel_code(Channel::Control), control_bytes(c))
}

/// The frame of a sync message.
pub open spec fn sync_frame_of(wavelet: Seq<char>, k: SyncView) -> Seq<u8> {
    envelope_bytes(channel_code(Channel::Sync), sync_bytes(wavelet, k))
}

/// The frame of an awareness message.
pub open spec fn awareness_frame_of(wavelet: Seq<char>, payload: Seq<u8>) -> Seq<u8> {
    envelope_bytes(channel_code(Channel::Awareness), awareness_bytes(wavelet, payload))
}

/// The frame of a control error.
pub open spec fn error_frame_of(wavelet: Seq<char>, code: Seq<char>, message: Seq<char>) -> Seq<u8> {
    control_frame_of(ControlView::Error(wavelet, code, message))
}

pub fn control_frame(kind: &ControlKind) -> (f: Vec<u8>)
    ensures
        f@ == control_frame_of(kind@),
{
    Envelope::new(Channel::Control, encode_control(kind)).encode_frame()
}

pub fn sync_frame(wavelet: &str, kind: SyncKind) -> (f: Vec<u8>)
    ensures
        f@ == sync_frame_of(wavelet@, kind@),
{
    Envelope::new(Channel::Sync, encode_sync(wavelet, &kind)).encode_frame()
}

pub fn awareness_frame(wavelet: &str, payload: Vec<u8>) -> (f: Vec<u8>)
    ensures
        f@ == awareness_frame_of(wavelet@, payload@),
{
    Envelope::new(Channel::Awareness, encode_awareness(wavelet, payload.as_slice())).encode_frame()
}

pub fn error_frame(wavelet: &str, code: &str, message: &str) -> (f: Vec<u8>)
    ensures
        f@ == error_frame_of(wavelet@, code@, message@),
{
    control_frame(
        &ControlKind::Error { wavelet: wavelet.to_owned(), code: code.to_owned(), message: message.to_owned() },
    )
}

// ---------------------------------------------------------------------------
// Inbound frames
// ---------------------------------------------------------------------------

/// What an inbound frame asks for, as plain values.
pub enum InboundView {
    Ignore,
    Echo,
    Subscribe(Seq<char>, Seq<u8>),
    Unsubscribe(Seq<char>),
    TranslateSubscribe(Seq<char>, Seq<char>),
    Sync(Seq<char>, Option<Seq<u8>>),
    Awareness(Seq<char>, Seq<u8>),
}

/// What an inbound frame asks for.
#[derive(Debug)]
pub enum Inbound {
    /// Nothing: malformed, or a message the session does not act on.
    Ignore,
    /// Send the frame back unchanged.
    Echo,
    Subscribe { wavelet: String, state_vector: Vec<u8> },
    Unsubscribe { wavelet: String },
    TranslateSubscribe { wavelet: String, target_lang: String },
    /// A sync message for a wavelet, with the update it carries if any.
    Sync { wavelet: String, update: Option<Vec<u8>> },
    Awareness { wavelet: String, payload: Vec<u8> },
}

impl View for Inbound {
    type V = InboundView;

    open spec fn view(&self) -> InboundView {
        match self {
            Inbound::Ignore => InboundView::Ignore,
            Inbound::Echo => InboundView::Echo,
            Inbound::Subscribe { wavelet, state_vector } => InboundView::Subscribe(wavelet@, state_vector@),
            Inbound::Unsubscribe { wavelet } => InboundView::Unsubscribe(wavelet@),
            Inbound::TranslateSubscribe { wavelet, target_lang } => InboundView::TranslateSubscribe(
                wavelet@,
                target_lang@,
            ),
            Inbound::Sync { wavelet, update } => InboundView::Sync(
                wavelet@,
                match update {
                    Some(u) => Some(u@),
                    None => None,
                },
            ),
            Inbound::Awareness { wavelet, payload } => InboundView::Awareness(wavelet@, payload@),
        }
    }
}

/// How a frame is read: by its envelope's channel, then its message.
pub open spec fn inbound_of(frame: Seq<u8>) -> InboundView {
    match decode_envelope(frame) {
        None => InboundView::Ignore,
        Some((ch, payload)) => if ch == channel_code(Channel::Control) {
            match decode_control_spec(payload) {
                Some(Some(ControlView::Subscribe(w, sv))) => InboundView::Subscribe(w, sv),
                Some(Some(ControlView::Unsubscribe(w))) => InboundView::Unsubscribe(w),
                Some(Some(ControlView::TranslateSubscribe(w, l))) => InboundView::TranslateSubscribe(w, l),
                _ => InboundView::Ignore,
            }
        } else if ch == channel_code(Channel::Sync) {
            match decode_sync_spec(payload) {
                Some((w, Some(SyncView::Update(u)))) => InboundView::Sync(w, Some(u)),
                Some((w, _)) => InboundView::Sync(w, None),
                None => InboundView::Ignore,
            }
        } else if ch == channel_code(Channel::Awareness) {
            match decode_awareness_spec(payload) {
                Some((w, p)) => InboundView::Awareness(w, p),
                None => InboundView::Ignore,
            }
        } else if ch == channel_code(Channel::Echo) {
            InboundView::Echo
        } else {
            InboundView::Ignore
        },
    }
}

/// Reads an inbound frame.
pub fn classify_frame(frame: &[u8]) -> (r: Inbound)
    ensures
        r@ == inbound_of(frame@),
{
    let env = match Envelope::decode_frame(frame) {
        Ok(e) => e,
        Err(_) => return Inbound::Ignore,
    };
    let ch = env.channel;
    if ch == Channel::Control.code() {
        match decode_control(env.payload.as_slice()) {
            Some(Some(ControlKind::Subscribe { wavelet, state_vector })) => Inbound::Subscribe {
                wavelet,
                state_vector,
            },
            Some(Some(ControlKind::Unsubscribe { wavelet })) => Inbound::Unsubscribe { wavelet },
            Some(Some(ControlKind::TranslateSubscribe { wavelet, target_lang })) => Inbound::TranslateSubscribe {
                wavelet,
                target_lang,
            },
            _ => Inbound::Ignore,
        }
    } else if ch == Channel::Sync.code() {
        match decode_sync(env.payload.as_slice()) {
            Some((wavelet, Some(SyncKind::Update { update }))) => Inbound::Sync { wavelet, update: Some(update) },
            Some((wavelet, _)) => Inbound::Sync { wavelet, update: None },
            None => Inbound::Ignore,
        }
    } else if ch == Channel::Awareness.code() {
        match decode_awareness(env.payload.as_slice()) {
            Some((wavelet, payload)) => Inbound::Awareness { wavelet, payload },
            None => Inbound::Ignore,
        }
    } else if ch == Channel::Echo.code() {
        Inbound::Echo
    } else {
        Inbound::Ignore
    }
}

// ---------------------------------------------------------------------------
// Subscribing
// ---------------------------------------------------------------------------

/// A subscription names its wavelet; a name that does not parse is refused
/// with a `bad-request` error carrying the parse error.
pub fn parse_subscription(wavelet: &str) -> (r: Result<WaveletName, Vec<u8>>)
    ensures
        match parse_wavelet_name(wavelet@) {
            Ok(n) => r matches Ok(name) && name@ == n,
            Err(e) => r matches Err(f) && f@ == error_frame_of(wavelet@, "bad-request"@, id_error_text(e)),
        },
{
    match WaveletName::parse(wavelet) {
        Ok(n) => Ok(n),
        Err(e) => {
            let m = e.message();
            Err(error_frame(wavelet, "bad-request", m.as_str()))
        },
    }
}

/// Only the wave's participants may subscribe: the wave is looked up by
/// the store (`Err` when the store failed).
pub fn subscription_acl(wavelet: &str, lookup: &Result<Option<WaveMeta>, String>, user: &ParticipantId) -> (r: Result<(), Vec<u8>>)
    ensures
        match lookup {
            Ok(Some(meta)) => if on_wave(meta.participants@, participant_text(user@)) {
                r is Ok
            } else {
                r matches Err(f) && f@ == error_frame_of(wavelet@, "not-participant"@, "not on this wave"@)
            },
            Ok(None) => r matches Err(f) && f@ == error_frame_of(wavelet@, "not-found"@, "no such wave"@),
            Err(_) => r matches Err(f) && f@ == error_frame_of(wavelet@, "internal"@, "storage error"@),
        },
{
    match lookup {
        Ok(Some(meta)) => {
            let me = user.to_string();
            if is_participant(&meta.participants, me.as_str()) {
                Ok(())
            } else {
                Err(error_frame(wavelet, "not-participant", "not on this wave"))
            }
        },
        Ok(None) => Err(error_frame(wavelet, "not-found", "no such wave")),
        Err(_) => Err(error_frame(wavelet, "internal", "storage error")),
    }
}

/// The frame for a wavelet the engine could not open.
pub fn open_failed_frame(wavelet: &str) -> (f: Vec<u8>)
    ensures
        f@ == error_frame_of(wavelet@, "internal"@, "open failed"@),
{
    error_frame(wavelet, "internal", "open failed")
}

/// The frame for a state vector the engine could not read.
pub fn bad_state_vector_frame(wavelet: &str) -> (f: Vec<u8>)
    ensures
        f@ == error_frame_of(wavelet@, "bad-request"@, "invalid state vector"@),
{
    error_frame(wavelet, "bad-request", "invalid state vector")
}

/// A wave homed on another server is freshened from its home when a
/// session subscribes to it.
pub fn needs_sync_pull(name: &WaveletName, our_domain: &str) -> (b: bool)
    ensures
        b == (name@.0.0 != our_domain@),
{
    !str_eq(name.wave_id.domain(), our_domain)
}

/// A successful subscription sends, in order, the sync state on the sync
/// channel (queued) and the `subscribed` acknowledgement (the reply).
pub fn subscribed_frames(wavelet: &str, server_sv: Vec<u8>, diff: Vec<u8>) -> (r: (Vec<u8>, Vec<u8>))
    ensures
        r.0@ == sync_frame_of(wavelet@, SyncView::SyncState(server_sv@, diff@)),
        r.1@ == control_frame_of(ControlView::Subscribed(wavelet@)),
{
    let sync = sync_frame(wavelet, SyncKind::SyncState { state_vector: server_sv, diff });
    let ack = control_frame(&ControlKind::Subscribed { wavelet: wavelet.to_owned() });
    (sync, ack)
}

/// What a subscription forwards to its session for a fan-out event: nothing
/// for the session's own events, else the update or awareness frame.
pub fn forward_frame(wavelet: &str, event: &WaveletEvent, conn: u64) -> (r: Option<Vec<u8>>)
    ensures
        event.from == conn ==> r is None,
        event.from != conn ==> match event.kind {
            EventKind::Update(u) => r matches Some(f) && f@ == sync_frame_of(wavelet@, SyncView::Update(u@)),
            EventKind::Awareness(p) => r matches Some(f) && f@ == awareness_frame_of(wavelet@, p@),
        },
{
    if event.from == conn {
        return None;
    }
    match &event.kind {
        EventKind::Update(u) => {
            let mut update: Vec<u8> = Vec::new();
            append_bytes(&mut update, u.as_slice());
            Some(sync_frame(wavelet, SyncKind::Update { update }))
        },
        EventKind::Awareness(p) => {
            let mut payload: Vec<u8> = Vec::new();
            append_bytes(&mut payload, p.as_slice());
            Some(awareness_frame(wavelet, payload))
        },
    }
}

// ---------------------------------------------------------------------------
// Syncing
// ---------------------------------------------------------------------------

/// What a session does with a sync message, as plain values.
pub enum SyncStepView {
    Reply(Seq<u8>),
    Apply(Seq<u8>),
    Nothing,
}

/// What a session does with a sync message.
#[derive(Debug)]
pub enum SyncStep {
    /// Answer with this frame.
    Reply(Vec<u8>),
    /// Apply this update to the subscribed wavelet.
    Apply(Vec<u8>),
    Nothing,
}

impl View for SyncStep {
    type V = SyncStepView;

    open spec fn view(&self) -> SyncStepView {
        match self {
            SyncStep::Reply(f) => SyncStepView::Reply(f@),
            SyncStep::Apply(u) => SyncStepView::Apply(u@),
            SyncStep::Nothing => SyncStepView::Nothing,
        }
    }
}

/// A sync message for a wavelet the session has not subscribed to is
/// answered `not-subscribed`; an update on a subscribed one is applied.
pub fn sync_step(wavelet: &str, subscribed: bool, update: Option<Vec<u8>>) -> (r: SyncStep)
    ensures
        !subscribed ==> r@ == SyncStepView::Reply(error_frame_of(wavelet@, "not-subscribed"@, "subscribe first"@)),
        subscribed ==> r@ == match update {
            Some(u) => SyncStepView::Apply(u@),
            None => SyncStepView::Nothing,
        },
{
    if !subscribed {
        return SyncStep::Reply(error_frame(wavelet, "not-subscribed", "subscribe first"));
    }
    match update {
        Some(u) => SyncStep::Apply(u),
        None => SyncStep::Nothing,
    }
}

/// The reply to an update the engine refused: `bad-update` with the reason
/// for bad bytes, `internal` for anything else.
pub fn apply_failure_frame(wavelet: &str, e: &EngineError) -> (f: Vec<u8>)
    ensures
        match e {
            EngineError::BadPayload(m) => f@ == error_frame_of(wavelet@, "bad-update"@, m@),
            _ => f@ == error_frame_of(wavelet@, "internal"@, "update failed"@),
        },
{
    match e {
        EngineError::BadPayload(m) => error_frame(wavelet, "bad-update", m.as_str()),
        _ => error_frame(wavelet, "internal", "update failed"),
    }
}

// ---------------------------------------------------------------------------
// Laws
// ---------------------------------------------------------------------------

/// A session reads back the control frames a client builds: subscribing,
/// unsubscribing and asking for translations.
pub proof fn law_control_frames_read_back(c: ControlView)
    requires
        control_bytes(c).len() < 0x1_0000_0000_0000_0000,
    ensures
        inbound_of(control_frame_of(c)) == match c {
            ControlView::Subscribe(w, sv) => InboundView::Subscribe(w, sv),
            ControlView::Unsubscribe(w) => InboundView::Unsubscribe(w),
            ControlView::TranslateSubscribe(w, l) => InboundView::TranslateSubscribe(w, l),
            _ => InboundView::Ignore,
        },
{
    law_envelope_roundtrip(channel_code(Channel::Control), control_bytes(c));
    law_control_roundtrip(c);
}

/// A session reads back an update frame as that update for that wavelet.
pub proof fn law_update_frame_read_back(wavelet: Seq<char>, update: Seq<u8>)
    requires
        sync_bytes(wavelet, SyncView::Update(update)).len() < 0x1_0000_0000_0000_0000,
    ensures
        inbound_of(sync_frame_of(wavelet, SyncView::Update(update))) == InboundView::Sync(wavelet, Some(update)),
{
    law_envelope_roundtrip(channel_code(Channel::Sync), sync_bytes(wavelet, SyncView::Update(update)));
    law_sync_roundtrip(wavelet, SyncView::Update(update));
}

/// A session reads back an awareness frame as that payload for that wavelet.
pub proof fn law_awareness_frame_read_back(wavelet: Seq<char>, payload: Seq<u8>)
    requires
        awareness_bytes(wavelet, payload).len() < 0x1_0000_0000_0000_0000,
    ensures
        inbound_of(awareness_frame_of(wavelet, payload)) == InboundView::Awareness(wavelet, payload),
{
    law_envelope_roundtrip(channel_code(Channel::Awareness), awareness_bytes(wavelet, payload));
    law_awareness_roundtrip(wavelet, payload);
}

// ---------------------------------------------------------------------------
// Subscribing and syncing, in order
// ---------------------------------------------------------------------------

/// Whether a subscription request is admitted, checked in order: the
/// wavelet name must parse (else a bad-request frame with the parse error),
/// then the lookup of its wave must show the user on it (else the frame
/// `subscription_acl` gives). Admitted, it yields the parsed name; the
/// wavelet is opened only after this.
pub fn admit_subscription(
    wavelet: &str,
    lookup: &Result<Option<WaveMeta>, String>,
    user: &ParticipantId,
) -> (r: Result<WaveletName, Vec<u8>>)
    ensures
        match parse_wavelet_name(wavelet@) {
            Err(e) => r matches Err(f) && f@ == error_frame_of(wavelet@, "bad-request"@, id_error_text(e)),
            Ok(n) => match lookup {
                Ok(Some(meta)) => if on_wave(meta.participants@, participant_text(user@)) {
                    r matches Ok(name) && name@ == n
                } else {
                    r matches Err(f) && f@ == error_frame_of(wavelet@, "not-participant"@, "not on this wave"@)
                },
                Ok(None) => r matches Err(f) && f@ == error_frame_of(wavelet@, "not-found"@, "no such wave"@),
                Err(_) => r matches Err(f) && f@ == error_frame_of(wavelet@, "internal"@, "storage error"@),
            },
        },
{
    let name = match parse_subscription(wavelet) {
        Ok(n) => n,
        Err(f) => return Err(f),
    };
    match subscription_acl(wavelet, lookup, user) {
        Ok(()) => Ok(name),
        Err(f) => Err(f),
    }
}

/// What an admitted subscription sends once its wavelet is open: whether
/// to pull from the wave's home server, the cached awareness of the other
/// subscribers, then the sync state, then the acknowledgement.
#[derive(Debug)]
pub struct Subscribed {
    pub pull: bool,
    pub awareness: Vec<Vec<u8>>,
    pub sync: Vec<u8>,
    pub ack: Vec<u8>,
}

/// The frames of an admitted subscription on its open wavelet: a state
/// vector that does not decode is answered with the bad-request frame;
/// otherwise the awareness replay, the sync state (the document's state
/// vector and the diff the client misses) and the acknowledgement.
pub fn open_subscription(
    wavelet: &str,
    name: &WaveletName,
    live: &LiveWavelet,
    client_sv: &[u8],
    our_domain: &str,
) -> (r: Result<Subscribed, Vec<u8>>)
    requires
        live.wf(),
    ensures
        !(client_sv@.len() == 0 || yrs_state_vector_decodes(client_sv@)) ==> (r matches Err(f) && f@
            == error_frame_of(wavelet@, "bad-request"@, "invalid state vector"@)),
        (client_sv@.len() == 0 || yrs_state_vector_decodes(client_sv@)) ==> (r matches Ok(s) && {
            &&& s.pull == (name@.0.0 != our_domain@)
            &&& s.awareness@.map_values(|f: Vec<u8>| f@) == live.awareness_view().map_values(
                |e: (u64, Seq<u8>)| awareness_frame_of(wavelet@, e.1),
            )
            &&& s.sync@ == sync_frame_of(
                wavelet@,
                SyncView::SyncState(
                    yrs_state_vector_of(live.history()),
                    yrs_diff_of(live.history(), effective_state_vector(client_sv@)),
                ),
            )
            &&& s.ack@ == control_frame_of(ControlView::Subscribed(wavelet@))
        }),
{
    let (sv, diff) = match live.sync_state(client_sv) {
        Ok(p) => p,
        Err(_) => return Err(bad_state_vector_frame(wavelet)),
    };
    let pull = needs_sync_pull(name, our_domain);
    let cached = live.cached_awareness();
    let ghost cv = cached@.map_values(|p: Vec<u8>| p@);
    let mut awareness: Vec<Vec<u8>> = Vec::new();
    let mut i: usize = 0;
    while i < cached.len()
        invariant
            i <= cached.len(),
            cv == cached@.map_values(|p: Vec<u8>| p@),
            cv == live.awareness_view().map_values(|e: (u64, Seq<u8>)| e.1),
            awareness@.map_values(|f: Vec<u8>| f@) == cv.take(i as int).map_values(
                |p: Seq<u8>| awareness_frame_of(wavelet@, p),
            ),
        decreases cached.len() - i,
    {
        let p = copy_bytes(&cached[i]);
        let f = awareness_frame(wavelet, p);
        let ghost before = awareness@;
        awareness.push(f);
        assert(cv.take(i + 1) =~= cv.take(i as int).push(cv[i as int]));
        assert(awareness@.map_values(|f: Vec<u8>| f@) =~= before.map_values(|f: Vec<u8>| f@).push(
            awareness_frame_of(wavelet@, cv[i as int]),
        ));
        assert(cv.take(i + 1).map_values(|p: Seq<u8>| awareness_frame_of(wavelet@, p)) =~= cv.take(
            i as int,
        ).map_values(|p: Seq<u8>| awareness_frame_of(wavelet@, p)).push(awareness_frame_of(wavelet@, cv[i as int])));
        i += 1;
    }
    assert(cv.take(cached.len() as int) =~= cv);
    assert(cv.map_values(|p: Seq<u8>| awareness_frame_of(wavelet@, p)) =~= live.awareness_view().map_values(
        |e: (u64, Seq<u8>)| awareness_frame_of(wavelet@, e.1),
    ));
    let (sync, ack) = subscribed_frames(wavelet, sv, diff);
    Ok(Subscribed { pull, awareness, sync, ack })
}

fn copy_bytes(b: &Vec<u8>) -> (r: Vec<u8>)
    ensures
        r@ == b@,
{
    let mut r: Vec<u8> = Vec::new();
    append_bytes(&mut r, b.as_slice());
    r
}

/// A sync message from a session, checked in order: on a wavelet the
/// session has not subscribed to it is refused with the not-subscribed
/// frame and nothing is applied; an update is then applied to the
/// subscribed wavelet, whose history grows by exactly that update, and one
/// that does not decode is answered with a bad-update frame and changes
/// nothing; a sync message without an update does nothing. An update that
/// decodes but does not integrate makes yrs panic; it is not admitted.
pub fn sync_message_step(wavelet: &str, subscribed: bool, live: &mut LiveWavelet, update: Option<Vec<u8>>) -> (r:
    Option<Vec<u8>>)
    requires
        old(live).wf(),
        old(live).updates() < u64::MAX,
        update matches Some(u) ==> integrates_after(old(live).history(), u@),
    ensures
        final(live).wf(),
        final(live).wavelet() == old(live).wavelet(),
        final(live).awareness_view() == old(live).awareness_view(),
        !subscribed ==> (r matches Some(f) && f@ == error_frame_of(wavelet@, "not-subscribed"@, "subscribe first"@)
            && final(live).history() == old(live).history() && final(live).updates() == old(live).updates()),
        subscribed ==> match update {
            None => r is None && final(live).history() == old(live).history() && final(live).updates() == old(
                live,
            ).updates(),
            Some(u) => if yrs_update_decodes(u@) {
                &&& r is None
                &&& final(live).history() == old(live).history().push(u@)
                &&& final(live).updates() == old(live).updates() + 1
            } else {
                &&& r matches Some(f) && exists|m: Seq<char>| f@ == error_frame_of(wavelet@, "bad-update"@, m)
                &&& final(live).history() == old(live).history()
                &&& final(live).updates() == old(live).updates()
            },
        },
{
    if !subscribed {
        return Some(error_frame(wavelet, "not-subscribed", "subscribe first"));
    }
    match update {
        None => None,
        Some(u) => match live.apply(u.as_slice()) {
            Ok(_) => None,
            Err(e) => Some(apply_failure_frame(wavelet, &e)),
        },
    }
}

} // verus!
