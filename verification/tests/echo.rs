use protowave::auth::{encode_auth_request, AppState, AuthResponse, EchoSession, EchoStep};
use protowave::wire::{Channel, Envelope};

fn state() -> AppState {
    AppState::new("dev".to_string())
}

fn reply_of(step: EchoStep) -> Envelope {
    match step {
        EchoStep::Reply(bytes) => Envelope::decode_frame(&bytes).unwrap(),
        other => panic!("expected a reply, got {other:?}"),
    }
}

fn auth_frame(participant: &str, token: &str) -> Vec<u8> {
    Envelope::new(Channel::Control, encode_auth_request(participant, token)).encode_frame()
}

#[test]
fn auth_then_echo() {
    let state = state();
    let mut session = EchoSession::new();

    let reply = reply_of(session.step(&state, &auth_frame("ada@example.org", "dev")));
    assert_eq!(reply.channel, Channel::Control.code());
    let auth_reply = AuthResponse::decode(&reply.payload).unwrap();
    assert!(auth_reply.ok, "auth failed: {}", auth_reply.error);
    assert!(!auth_reply.session_id.is_empty());
    assert_eq!(session.session_id.as_deref(), Some(auth_reply.session_id.as_str()));

    let echo = Envelope::new(Channel::Echo, b"hello wave".to_vec());
    let reply = reply_of(session.step(&state, &echo.encode_frame()));
    assert_eq!(reply.channel, Channel::Echo.code());
    assert_eq!(reply.payload, b"hello wave");
}

#[test]
fn echo_requires_auth() {
    let state = state();
    let mut session = EchoSession::new();
    let echo = Envelope::new(Channel::Echo, b"sneaky".to_vec());
    let reply = reply_of(session.step(&state, &echo.encode_frame()));
    assert_eq!(reply.channel, Channel::Control.code());
    let auth_reply = AuthResponse::decode(&reply.payload).unwrap();
    assert!(!auth_reply.ok);
    assert_eq!(auth_reply.error, "unauthenticated");
}

#[test]
fn bad_token_rejected() {
    let state = state();
    let mut session = EchoSession::new();
    let reply = reply_of(session.step(&state, &auth_frame("ada@example.org", "wrong")));
    let auth_reply = AuthResponse::decode(&reply.payload).unwrap();
    assert!(!auth_reply.ok);
    assert_eq!(auth_reply.error, "invalid token");
    assert!(session.session_id.is_none());
}

#[test]
fn malformed_requests_and_participants_are_refused() {
    let state = state();
    let mut session = EchoSession::new();
    let frame = Envelope::new(Channel::Control, vec![0x0a, 0x09, b'x']).encode_frame();
    let auth_reply = AuthResponse::decode(&reply_of(session.step(&state, &frame)).payload).unwrap();
    assert_eq!(auth_reply.error, "malformed auth request");
    let auth_reply =
        AuthResponse::decode(&reply_of(session.step(&state, &auth_frame("no-at-sign", "dev"))).payload).unwrap();
    assert!(!auth_reply.ok);
    assert!(auth_reply.error.starts_with("invalid participant: "));
}

#[test]
fn failed_reauthentication_ends_the_session() {
    let state = state();
    let mut session = EchoSession::new();
    reply_of(session.step(&state, &auth_frame("ada@example.org", "dev")));
    assert!(session.session_id.is_some());
    reply_of(session.step(&state, &auth_frame("ada@example.org", "nope")));
    assert!(session.session_id.is_none());
    let echo = Envelope::new(Channel::Echo, b"x".to_vec());
    let reply = reply_of(session.step(&state, &echo.encode_frame()));
    assert_eq!(reply.channel, Channel::Control.code());
}

#[test]
fn garbage_closes_and_other_channels_are_ignored() {
    let state = state();
    let mut session = EchoSession::new();
    assert!(matches!(session.step(&state, &[0xff]), EchoStep::Close));
    let other = Envelope { channel: 7, payload: vec![1] };
    assert!(matches!(session.step(&state, &other.encode_frame()), EchoStep::Nothing));
}
