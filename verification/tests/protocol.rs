use protowave::engine::{EngineError, EventKind, WaveletEvent, AwarenessCache, should_snapshot};
use protowave::fields::{read_fields, put_bytes_field, put_varint_field};
use protowave::protocol::{
    ControlKind, SyncKind, decode_awareness, decode_control, decode_sync, encode_awareness, encode_control,
    encode_sync, encode_translation,
};
use protowave::wire::{read_varint, write_varint, Channel, Envelope};
use protowave::ws::{
    apply_failure_frame, awareness_frame, classify_frame, control_frame, error_frame, forward_frame,
    needs_sync_pull, parse_subscription, subscribed_frames, subscription_acl, sync_frame, sync_step, Inbound,
    SyncStep,
};
use protowave::store::WaveMeta;
use protowave::{ParticipantId, WaveletName};

fn meta(wave: &str, participants: &[&str]) -> WaveMeta {
    WaveMeta {
        wave: wave.to_string(),
        title: "t".to_string(),
        participants: participants.iter().map(|p| p.to_string()).collect(),
        created_by: participants[0].to_string(),
        created_ms: 1,
        last_activity_ms: 1,
        acl_version: 1,
        translation_enabled: false,
    }
}

#[test]
fn varints_roundtrip() {
    for v in [0u64, 1, 127, 128, 300, 16384, u64::MAX] {
        let mut out = Vec::new();
        write_varint(&mut out, v);
        assert_eq!(read_varint(&out, 0), Some((v, out.len())));
    }
    let mut out = Vec::new();
    write_varint(&mut out, 300);
    assert_eq!(out, vec![0xac, 0x02]);
    assert_eq!(read_varint(&[0x80], 0), None);
}

#[test]
fn fields_roundtrip() {
    let mut out = Vec::new();
    put_varint_field(&mut out, 1, 150);
    put_bytes_field(&mut out, 2, b"abc");
    assert_eq!(out, vec![0x08, 0x96, 0x01, 0x12, 0x03, b'a', b'b', b'c']);
    let fs = read_fields(&out).unwrap();
    assert_eq!(fs.len(), 2);
    assert_eq!((fs[0].tag, fs[0].delimited, fs[0].value), (1, false, 150));
    assert_eq!((fs[1].tag, fs[1].delimited, fs[1].bytes.clone()), (2, true, b"abc".to_vec()));
    // A fixed64 field is skipped; a truncated one is refused.
    let mut with_fixed = vec![0x19, 1, 2, 3, 4, 5, 6, 7, 8];
    with_fixed.extend_from_slice(&out);
    assert_eq!(read_fields(&with_fixed).unwrap().len(), 2);
    assert!(read_fields(&[0x19, 1, 2]).is_none());
}

#[test]
fn control_messages_roundtrip() {
    let kinds = vec![
        ControlKind::Subscribe { wavelet: "a.org/w+1/conv+root".into(), state_vector: vec![1, 2] },
        ControlKind::Unsubscribe { wavelet: "a.org/w+1/conv+root".into() },
        ControlKind::Subscribed { wavelet: "x".into() },
        ControlKind::Error { wavelet: "x".into(), code: "c".into(), message: "ünïcode".into() },
        ControlKind::TranslateSubscribe { wavelet: "x".into(), target_lang: "es".into() },
    ];
    for k in kinds {
        let bytes = encode_control(&k);
        let back = decode_control(&bytes).unwrap().unwrap();
        assert_eq!(format!("{back:?}"), format!("{k:?}"));
    }
    // No kind at all.
    assert!(matches!(decode_control(&[]), Some(None)));
    // A kind field sent as a varint is refused.
    assert!(decode_control(&[0x08, 0x01]).is_none());
}

#[test]
fn sync_and_awareness_roundtrip() {
    let bytes = encode_sync("w", &SyncKind::Update { update: vec![9, 9] });
    let (w, k) = decode_sync(&bytes).unwrap();
    assert_eq!(w, "w");
    assert!(matches!(k, Some(SyncKind::Update { update }) if update == vec![9, 9]));
    let bytes = encode_sync("w", &SyncKind::SyncState { state_vector: vec![1], diff: vec![2, 3] });
    let (_, k) = decode_sync(&bytes).unwrap();
    assert!(matches!(k, Some(SyncKind::SyncState { state_vector, diff }) if state_vector == vec![1] && diff == vec![2, 3]));
    let bytes = encode_awareness("w", b"cursor");
    assert_eq!(decode_awareness(&bytes).unwrap(), ("w".to_string(), b"cursor".to_vec()));
    // Invalid UTF-8 in the wavelet is refused.
    assert!(decode_awareness(&[0x0a, 0x01, 0xff]).is_none());
}

#[test]
fn frames_are_classified() {
    let sub = control_frame(&ControlKind::Subscribe { wavelet: "a/w+1/conv+root".into(), state_vector: vec![] });
    assert!(matches!(classify_frame(&sub), Inbound::Subscribe { wavelet, .. } if wavelet == "a/w+1/conv+root"));
    let unsub = control_frame(&ControlKind::Unsubscribe { wavelet: "w".into() });
    assert!(matches!(classify_frame(&unsub), Inbound::Unsubscribe { wavelet } if wavelet == "w"));
    let ts = control_frame(&ControlKind::TranslateSubscribe { wavelet: "w".into(), target_lang: "es".into() });
    assert!(matches!(classify_frame(&ts), Inbound::TranslateSubscribe { target_lang, .. } if target_lang == "es"));
    let ack = control_frame(&ControlKind::Subscribed { wavelet: "w".into() });
    assert!(matches!(classify_frame(&ack), Inbound::Ignore));
    let upd = sync_frame("w", SyncKind::Update { update: vec![5] });
    assert!(matches!(classify_frame(&upd), Inbound::Sync { wavelet, update: Some(u) } if wavelet == "w" && u == vec![5]));
    let st = sync_frame("w", SyncKind::SyncState { state_vector: vec![], diff: vec![] });
    assert!(matches!(classify_frame(&st), Inbound::Sync { update: None, .. }));
    let aw = awareness_frame("w", vec![7]);
    assert!(matches!(classify_frame(&aw), Inbound::Awareness { payload, .. } if payload == vec![7]));
    let echo = Envelope::new(Channel::Echo, b"hello wave".to_vec()).encode_frame();
    assert!(matches!(classify_frame(&echo), Inbound::Echo));
    let notif = Envelope::new(Channel::Notification, vec![]).encode_frame();
    assert!(matches!(classify_frame(&notif), Inbound::Ignore));
    assert!(matches!(classify_frame(&[0xff]), Inbound::Ignore));
}

#[test]
fn error_frames_carry_code_and_message() {
    let f = error_frame("w", "not-participant", "not on this wave");
    let env = Envelope::decode_frame(&f).unwrap();
    assert_eq!(env.channel, Channel::Control.code());
    match decode_control(&env.payload).unwrap() {
        Some(ControlKind::Error { wavelet, code, message }) => {
            assert_eq!((wavelet.as_str(), code.as_str(), message.as_str()), ("w", "not-participant", "not on this wave"));
        }
        other => panic!("unexpected {other:?}"),
    }
}

#[test]
fn subscription_checks() {
    assert!(parse_subscription("example.org/w+1/conv+root").is_ok());
    let bad = parse_subscription("nonsense").unwrap_err();
    let env = Envelope::decode_frame(&bad).unwrap();
    assert!(matches!(decode_control(&env.payload).unwrap(), Some(ControlKind::Error { code, .. }) if code == "bad-request"));

    let ada: ParticipantId = "ada@localhost".parse().unwrap();
    let carol: ParticipantId = "carol@localhost".parse().unwrap();
    let m = meta("localhost/w+1", &["ada@localhost"]);
    assert!(subscription_acl("w", &Ok(Some(m.clone())), &ada).is_ok());
    let rejected = subscription_acl("w", &Ok(Some(m)), &carol).unwrap_err();
    assert_eq!(rejected, error_frame("w", "not-participant", "not on this wave"));
    assert_eq!(subscription_acl("w", &Ok(None), &ada).unwrap_err(), error_frame("w", "not-found", "no such wave"));
    assert_eq!(
        subscription_acl("w", &Err("io".into()), &ada).unwrap_err(),
        error_frame("w", "internal", "storage error")
    );

    let name: WaveletName = "b.org/w+1/conv+root".parse().unwrap();
    assert!(needs_sync_pull(&name, "a.org"));
    assert!(!needs_sync_pull(&name, "b.org"));

    let (sync, ack) = subscribed_frames("w", vec![1], vec![2]);
    assert_eq!(sync, sync_frame("w", SyncKind::SyncState { state_vector: vec![1], diff: vec![2] }));
    assert_eq!(ack, control_frame(&ControlKind::Subscribed { wavelet: "w".into() }));
}

#[test]
fn sync_steps_and_forwarding() {
    assert!(matches!(sync_step("w", false, Some(vec![1])), SyncStep::Reply(f) if f == error_frame("w", "not-subscribed", "subscribe first")));
    assert!(matches!(sync_step("w", true, Some(vec![1])), SyncStep::Apply(u) if u == vec![1]));
    assert!(matches!(sync_step("w", true, None), SyncStep::Nothing));
    assert_eq!(
        apply_failure_frame("w", &EngineError::BadPayload("bad".into())),
        error_frame("w", "bad-update", "bad")
    );
    assert_eq!(apply_failure_frame("w", &EngineError::NotFound), error_frame("w", "internal", "update failed"));

    let own = WaveletEvent { from: 3, kind: EventKind::Update(vec![1]) };
    assert!(forward_frame("w", &own, 3).is_none());
    let other = WaveletEvent { from: 4, kind: EventKind::Update(vec![1]) };
    assert_eq!(forward_frame("w", &other, 3).unwrap(), sync_frame("w", SyncKind::Update { update: vec![1] }));
    let aw = WaveletEvent { from: 4, kind: EventKind::Awareness(vec![2]) };
    assert_eq!(forward_frame("w", &aw, 3).unwrap(), awareness_frame("w", vec![2]));
}

#[test]
fn awareness_cache_replays_latest_per_connection() {
    let mut c = AwarenessCache::new();
    c.set(1, b"ada-cursor".to_vec());
    c.set(2, b"bob".to_vec());
    c.set(1, b"ada-moved".to_vec());
    assert_eq!(c.cached(), vec![b"ada-moved".to_vec(), b"bob".to_vec()]);
    c.drop_conn(1);
    assert_eq!(c.cached(), vec![b"bob".to_vec()]);
    c.drop_conn(9);
    assert_eq!(c.cached().len(), 1);
}

#[test]
fn snapshot_cadence() {
    assert!(should_snapshot(500));
    assert!(should_snapshot(1000));
    assert!(!should_snapshot(499));
    assert!(!should_snapshot(1));
}

#[test]
fn translation_messages_encode() {
    let entries = vec![("b+root".to_string(), "[es] hola".to_string(), false)];
    let bytes = encode_translation("w", "es", &entries);
    let fs = read_fields(&bytes).unwrap();
    assert_eq!(fs.len(), 3);
    assert_eq!(fs[0].bytes, b"w".to_vec());
    assert_eq!(fs[1].bytes, b"es".to_vec());
    let inner = read_fields(&fs[2].bytes).unwrap();
    assert_eq!(inner[0].bytes, b"b+root".to_vec());
    assert_eq!(inner[1].bytes, b"[es] hola".to_vec());
    assert_eq!((inner[2].tag, inner[2].value), (3, 0));
}
