use protowave::auth::{
    check_registration, frame_action, new_session_id, session_cookie, session_id_from_cookies, AppState, AuthFault,
    FrameAction, RegisterFault,
};
use protowave::federation::{
    accept_well_known, check_announcement, check_request_signature, diff_has_content, domain_is_participant,
    parse_signature_header, remote_domains, sign_request, signing_input, FederationConfig, PeerReject,
};
use protowave::signing::ServerKeypair;
use protowave::store::WaveMeta;
use protowave::waves::{add_participant_to, home_domain, needs_local_account, new_wave, set_translation_on, WaveDigest};
use protowave::wire::Channel;
use protowave::ParticipantId;

fn meta(wave: &str, participants: &[&str]) -> WaveMeta {
    WaveMeta {
        wave: wave.to_string(),
        title: "t".to_string(),
        participants: participants.iter().map(|p| p.to_string()).collect(),
        created_by: participants[0].to_string(),
        created_ms: 1,
        last_activity_ms: 5,
        acl_version: 1,
        translation_enabled: false,
    }
}

#[test]
fn remote_domains_sorted_unique() {
    let m = meta("a.local/w+1", &["ada@a.local", "zed@z.local", "bob@b.local", "bo2@b.local", "junk"]);
    assert_eq!(remote_domains(&m, "a.local"), vec!["b.local".to_string(), "z.local".to_string()]);
    assert!(domain_is_participant(&m, "z.local"));
    assert!(!domain_is_participant(&m, "evil.example"));
}

#[test]
fn signed_requests_verify_against_the_signer() {
    let kp = ServerKeypair::generate();
    let body = b"update batch";
    let sig_hex = sign_request(&kp, "/federation/v0/push", body);
    let sig = parse_signature_header(&sig_hex).unwrap();
    let key_hex = kp.public_key().to_hex();
    assert!(check_request_signature(&key_hex, "/federation/v0/push", body, &sig).is_ok());
    // Another path or body fails.
    assert_eq!(
        check_request_signature(&key_hex, "/federation/v0/sync", body, &sig),
        Err(PeerReject::VerificationFailed)
    );
    let other = ServerKeypair::generate().public_key().to_hex();
    assert_eq!(check_request_signature(&other, "/federation/v0/push", body, &sig), Err(PeerReject::VerificationFailed));
    assert_eq!(check_request_signature("zz", "/p", body, &sig), Err(PeerReject::CorruptPinnedKey));
    assert_eq!(parse_signature_header("xyz").unwrap_err(), PeerReject::BadSignatureEncoding);
    assert_eq!(parse_signature_header("abcd").unwrap_err(), PeerReject::BadSignatureLength);
    assert_eq!(PeerReject::VerificationFailed.message(), "signature verification failed");
    let input = signing_input("/p", b"b");
    assert_eq!(input, b"protowave-fed-v0\n/p\nb".to_vec());
}

#[test]
fn well_known_and_announcements() {
    let key = "a".repeat(64);
    assert_eq!(accept_well_known("b.local", "b.local", &key), Some(key.clone()));
    assert_eq!(accept_well_known("b.local", "evil", &key), None);
    assert_eq!(accept_well_known("b.local", "b.local", "short"), None);
    assert!(check_announcement("b.local/w+1", "b.local", Some(2), 2).is_ok());
    let e = check_announcement("b.local/w+1", "c.local", None, 1).unwrap_err();
    assert_eq!((e.0, e.1.as_str()), (403, "announcement not from home server"));
    assert_eq!(check_announcement("b.local/w+1", "b.local", Some(3), 2).unwrap_err().0, 409);
    assert_eq!(check_announcement("bad", "b.local", None, 2).unwrap_err().1, "bad wave id");
    assert!(diff_has_content(&[1, 2, 3]));
    assert!(!diff_has_content(&[0, 0]));
    let cfg = FederationConfig {
        public_url: "http://a".into(),
        peers: vec![("b.local".into(), "http://b".into()), ("b.local".into(), "http://c".into())],
    };
    assert_eq!(cfg.peer_url("b.local"), Some("http://b"));
    assert_eq!(cfg.peer_url("c.local"), None);
}

#[test]
fn sessions_and_registration() {
    let headers = vec!["theme=dark; pw_session=abc123".to_string()];
    assert_eq!(session_id_from_cookies(&headers).as_deref(), Some("abc123"));
    assert!(session_id_from_cookies(&vec!["other=1".to_string()]).is_none());
    assert_eq!(
        session_cookie("abc", 2592000),
        "pw_session=abc; HttpOnly; Path=/; SameSite=Lax; Max-Age=2592000"
    );
    assert_eq!(new_session_id().len(), 48);
    assert!(matches!(check_registration("ada", "short", "localhost"), Err(RegisterFault::ShortPassword)));
    assert!(matches!(check_registration("a da", "correct horse battery", "localhost"), Err(RegisterFault::InvalidName(_))));
    assert_eq!(check_registration("Ada", "correct horse battery", "localhost").unwrap().to_string(), "ada@localhost");
}

#[test]
fn phase0_authentication() {
    let state = AppState::new("dev".into());
    assert!(state.authenticate("ada@example.org", "dev").is_ok());
    assert!(matches!(state.authenticate("ada@example.org", "wrong"), Err(AuthFault::InvalidToken)));
    assert!(matches!(state.authenticate("nope", "dev"), Err(AuthFault::InvalidParticipant(_))));
    assert_eq!(frame_action(Channel::Control.code(), false), FrameAction::Authenticate);
    assert_eq!(frame_action(Channel::Echo.code(), false), FrameAction::RejectUnauthenticated);
    assert_eq!(frame_action(Channel::Echo.code(), true), FrameAction::Echo);
    assert_eq!(frame_action(Channel::Sync.code(), true), FrameAction::Ignore);
}

#[test]
fn wave_lifecycle_rules() {
    let ada: ParticipantId = "ada@localhost".parse().unwrap();
    let bob: ParticipantId = "bob@localhost".parse().unwrap();
    let remote: ParticipantId = "bob@b.local".parse().unwrap();
    let m = new_wave("localhost", &ada, "  Phase 1 exit ", 10).unwrap();
    assert!(m.wave.starts_with("localhost/w+"));
    assert_eq!(m.title, "Phase 1 exit");
    assert_eq!(m.participants, vec!["ada@localhost".to_string()]);
    assert_eq!(m.acl_version, 1);
    assert!(new_wave("localhost", &ada, "   ", 10).is_err());
    assert_eq!(home_domain(&m.wave), "localhost");
    assert!(needs_local_account(&bob, "localhost"));
    assert!(!needs_local_account(&remote, "localhost"));
    let (m2, changed) = add_participant_to(m.clone(), &ada, &bob, "localhost", 20).unwrap();
    assert!(changed);
    assert_eq!(m2.participants.len(), 2);
    assert_eq!(m2.acl_version, 2);
    let (m3, changed) = add_participant_to(m2.clone(), &ada, &bob, "localhost", 30).unwrap();
    assert!(!changed);
    assert_eq!(m3.participants.len(), 2);
    assert_eq!(add_participant_to(m.clone(), &bob, &bob, "localhost", 20).unwrap_err().0, 403);
    let (m4, changed) = set_translation_on(m2, &ada, true, "localhost").unwrap();
    assert!(changed && m4.translation_enabled);
    let d = WaveDigest::new(m4.clone(), 0);
    assert!(d.unread);
    assert!(!WaveDigest::new(m4, 1_000_000).unread);
}
