use protowave::agent::{InferenceHub, ModelPool, Provider};
use protowave::auth::{check_login, hash_password, new_account, registration_result, RegisterFault};
use protowave::federation::{
    accept_peer_on_wave, advertised_models, announced_meta, infer_target, parse_peer_wavelet, peer_endpoint,
    FederationConfig,
};
use protowave::fedwire::{
    ack, decode_file_entry, decode_manifest, encode_file_entry, encode_manifest, BlobRequest, FedSyncRequest,
    FedSyncResponse, InferRequest, InferResponse, ShareAnnouncement, UpdateBatch, WaveAnnouncement,
};
use protowave::models::UserModel;
use protowave::shares::{FileEntry, FolderManifest, ShareMeta};
use protowave::store::WaveMeta;
use protowave::ParticipantId;

fn meta(wave: &str, participants: &[&str]) -> WaveMeta {
    WaveMeta {
        wave: wave.to_string(),
        title: "Plans".to_string(),
        participants: participants.iter().map(|p| p.to_string()).collect(),
        created_by: participants[0].to_string(),
        created_ms: 3,
        last_activity_ms: 9,
        acl_version: 4,
        translation_enabled: true,
    }
}

fn model(id: &str, scope: &str, enabled: bool) -> UserModel {
    UserModel {
        id: id.into(),
        owner: "ada@a.local".into(),
        label: format!("label {id}"),
        base: "http://gpu:11434".into(),
        model: format!("m-{id}"),
        scope: scope.into(),
        enabled,
        created_ms: 0,
    }
}

#[test]
fn ack_bytes_are_fixed() {
    assert_eq!(ack(), vec![0x08, 0x01, 0x12, 0x00]);
}

#[test]
fn update_batches_round_trip() {
    let b = UpdateBatch { wavelet: "a.local/w+1/conv+root".into(), update: vec![1, 2, 3], acl_version: 7 };
    let bytes = b.encode();
    let back = UpdateBatch::decode(&bytes).unwrap();
    assert_eq!(back.wavelet, b.wavelet);
    assert_eq!(back.update, vec![1, 2, 3]);
    assert_eq!(back.acl_version, 7);
    assert!(UpdateBatch::decode(&[0x0a, 0x05, b'a']).is_none());
}

#[test]
fn sync_blob_and_infer_messages_round_trip() {
    let r = FedSyncRequest { wavelet: "w".into(), state_vector: vec![0, 1] };
    let back = FedSyncRequest::decode(&r.encode()).unwrap();
    assert_eq!((back.wavelet.as_str(), back.state_vector), ("w", vec![0, 1]));

    let s = FedSyncResponse { state_vector: vec![9], diff: vec![] };
    let back = FedSyncResponse::decode(&s.encode()).unwrap();
    assert_eq!((back.state_vector, back.diff), (vec![9], vec![]));

    let q = BlobRequest { hash: "ab".repeat(32), wave: "a.local/w+1".into() };
    let back = BlobRequest::decode(&q.encode()).unwrap();
    assert_eq!(back.hash, "ab".repeat(32));
    assert_eq!(back.wave, "a.local/w+1");

    let i = InferRequest { wave: "a.local/w+1".into(), prompt: "hi".into(), context: "ctx".into(), model: "".into() };
    let back = InferRequest::decode(&i.encode()).unwrap();
    assert_eq!((back.prompt.as_str(), back.context.as_str(), back.model.as_str()), ("hi", "ctx", ""));

    let o = InferResponse { text: "hello".into(), model: "m · hosted by ada".into() };
    let back = InferResponse::decode(&o.encode()).unwrap();
    assert_eq!((back.text.as_str(), back.model.as_str()), ("hello", "m · hosted by ada"));
}

#[test]
fn announcements_round_trip_and_become_records() {
    let m = meta("a.local/w+1", &["ada@a.local", "bob@b.local"]);
    let a = WaveAnnouncement::of_meta(&m);
    let back = WaveAnnouncement::decode(&a.encode()).unwrap();
    assert_eq!(back.wave, "a.local/w+1");
    assert_eq!(back.participants, vec!["ada@a.local".to_string(), "bob@b.local".to_string()]);
    assert_eq!(back.acl_version, 4);
    assert!(back.translation_enabled);
    let rec = announced_meta(back, 77);
    assert_eq!(rec.last_activity_ms, 77);
    assert_eq!(rec.created_ms, 3);
    assert_eq!(rec.title, "Plans");

    let share = ShareMeta {
        manifest_hash: "cd".repeat(32),
        wave: "a.local/w+1".into(),
        name: "photos".into(),
        total_size: 1234,
        file_count: 2,
        uploader: "ada@a.local".into(),
        origin_domain: "a.local".into(),
        mirrored: true,
        created_ms: 5,
    };
    let sa = ShareAnnouncement::decode(&ShareAnnouncement::of_share(&share).encode()).unwrap();
    let here = sa.into_share("a.local");
    assert_eq!(here.total_size, 1234);
    assert_eq!(here.file_count, 2);
    assert!(!here.mirrored);
    assert_eq!(here.origin_domain, "a.local");
}

#[test]
fn manifests_round_trip() {
    let f = FileEntry { path: "a/b.txt".into(), size: 10, mime: "text/plain".into(), chunks: vec!["x".into(), "y".into()] };
    let back = decode_file_entry(&encode_file_entry(&f)).unwrap();
    assert_eq!(back.path, "a/b.txt");
    assert_eq!(back.chunks, vec!["x".to_string(), "y".to_string()]);
    let m = FolderManifest { name: "docs".into(), total_size: 10, created_ms: 8, files: vec![f] };
    let back = decode_manifest(&encode_manifest(&m)).unwrap();
    assert_eq!(back.name, "docs");
    assert_eq!(back.files.len(), 1);
    assert_eq!(back.files[0].size, 10);
    assert!(decode_manifest(&[0xff]).is_none());
}

#[test]
fn peers_are_served_only_on_their_waves() {
    let m = meta("a.local/w+1", &["ada@a.local", "bob@b.local"]);
    assert!(accept_peer_on_wave(Some(&m), "b.local").is_ok());
    let e = accept_peer_on_wave(Some(&m), "evil.example").unwrap_err();
    assert_eq!((e.0, e.1.as_str()), (403, "not a participant domain"));
    let e = accept_peer_on_wave(None, "b.local").unwrap_err();
    assert_eq!((e.0, e.1.as_str()), (404, "unknown wave"));
    assert!(parse_peer_wavelet("a.local/w+1/conv+root").is_ok());
    let e = parse_peer_wavelet("nonsense").unwrap_err();
    assert_eq!((e.0, e.1.as_str()), (400, "bad wavelet name"));
}

#[test]
fn peer_endpoints_use_the_first_configured_url() {
    let cfg = FederationConfig {
        public_url: "http://a".into(),
        peers: vec![("b.local".into(), "http://b:1".into()), ("b.local".into(), "http://b:2".into())],
    };
    assert_eq!(peer_endpoint(&cfg, "b.local", "/federation/v0/push").unwrap(), "http://b:1/federation/v0/push");
    assert_eq!(peer_endpoint(&cfg, "c.local", "/x").unwrap_err(), "no peer URL for c.local");
}

#[test]
fn inference_targets() {
    let mut pool = ModelPool::new();
    let mut hub = InferenceHub::new();
    let e = infer_target("", &hub, None, &mut pool).unwrap_err();
    assert_eq!((e.0, e.1.as_str()), (503, "no model here"));
    hub.set(Provider::gemini("k", "g-1"));
    assert_eq!(infer_target("", &hub, None, &mut pool).unwrap().provenance, "g-1");
    let shared = model("7", "federation", true);
    let r = infer_target("7", &hub, Some(&shared), &mut pool).unwrap();
    assert_eq!(r.provenance, "m-7 · hosted by ada");
    let private = model("8", "wave", true);
    let e = infer_target("8", &hub, Some(&private), &mut pool).unwrap_err();
    assert_eq!((e.0, e.1.as_str()), (404, "no such federation model"));
    assert!(infer_target("9", &hub, None, &mut pool).is_err());
}

#[test]
fn only_federation_models_are_advertised() {
    let models = vec![model("1", "federation", true), model("2", "wave", true), model("3", "federation", false)];
    let ads = advertised_models(&models);
    assert_eq!(ads.len(), 1);
    assert_eq!(ads[0].id, "1");
    assert_eq!(ads[0].owner, "ada");
    assert_eq!(ads[0].model, "m-1");
}

#[test]
fn passwords_hash_and_verify() {
    let h = hash_password("correct horse").unwrap();
    assert!(h.starts_with("$argon2"));
    let ada: ParticipantId = "ada@a.local".parse().unwrap();
    let acct = new_account(&ada, h, 12);
    assert_eq!(acct.participant, "ada@a.local");
    assert_eq!(acct.created_ms, 12);
    assert_eq!(check_login("ada", "a.local", Some(&acct), "correct horse").unwrap(), ada);
    let e = check_login("ada", "a.local", Some(&acct), "wrong horse").unwrap_err();
    assert_eq!((e.0, e.1.as_str()), (401, "invalid credentials"));
    let e = check_login("ada", "a.local", None, "correct horse").unwrap_err();
    assert_eq!((e.0, e.1.as_str()), (401, "invalid credentials"));
    let e = check_login("bad name!", "a.local", Some(&acct), "correct horse").unwrap_err();
    assert_eq!(e.0, 401);
    let broken = new_account(&ada, "not a phc".into(), 1);
    assert_eq!(check_login("ada", "a.local", Some(&broken), "x").unwrap_err().0, 500);
}

#[test]
fn registration_refusals() {
    assert!(registration_result(true).is_ok());
    let e = registration_result(false).unwrap_err();
    assert_eq!((e.0, e.1.as_str()), (409, "name already taken"));
    let e = RegisterFault::ShortPassword.to_api_error();
    assert_eq!((e.0, e.1.as_str()), (400, "password must be at least 8 characters"));
}
