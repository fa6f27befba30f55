use protowave::agent::{answer_step, Provider, Route};
use protowave::shares::{chunk_reply, ChunkStep};
use protowave::waves::add_participant_to;
use protowave::agent::{MentionWorker, ModelPool, MENTION_BUDGET};
use protowave::cas::Cas;
use protowave::engine::LiveWavelet;
use protowave::federation::{accept_push, apply_push};
use protowave::fedwire::{decode_manifest, UpdateBatch};
use protowave::shares::{folder_share, FileEntry};
use protowave::store::{wavelet_record, WaveMeta};
use protowave::waves::add_participant_step;
use protowave::ws::{admit_subscription, open_subscription, sync_message_step};
use protowave::{ParticipantId, WaveletName};
use yrs::{Doc, GetString, ReadTxn, Text, Transact};

fn meta(wave: &str, participants: &[&str], acl: u64) -> WaveMeta {
    WaveMeta {
        wave: wave.to_string(),
        title: "t".to_string(),
        participants: participants.iter().map(|p| p.to_string()).collect(),
        created_by: participants[0].to_string(),
        created_ms: 1,
        last_activity_ms: 5,
        acl_version: acl,
        translation_enabled: false,
    }
}

fn text_update(doc: &Doc, text: &str) -> Vec<u8> {
    let t = doc.get_or_insert_text("t");
    let before = doc.transact().state_vector();
    {
        let mut txn = doc.transact_mut();
        let len = t.get_string(&txn).len() as u32;
        t.insert(&mut txn, len, text);
    }
    doc.transact().encode_diff_v1(&before)
}

fn live() -> LiveWavelet {
    let name: WaveletName = "a.local/w+1/conv+root".parse().unwrap();
    LiveWavelet::open(name, &wavelet_record(Vec::new(), None)).unwrap()
}

#[test]
fn stale_batches_are_refused_before_they_are_applied() {
    let m = meta("a.local/w+1", &["ada@a.local", "bob@b.local"], 3);
    assert!(accept_push(Some(&m), "b.local", 3).is_ok());
    assert!(accept_push(Some(&m), "b.local", 4).is_ok());
    let e = accept_push(Some(&m), "b.local", 2).unwrap_err();
    assert_eq!((e.0, e.1.as_str()), (409, "stale acl version"));
    let e = accept_push(Some(&m), "evil.example", 9).unwrap_err();
    assert_eq!(e.0, 403);
    assert_eq!(accept_push(None, "b.local", 9).unwrap_err().0, 404);

    let mut l = live();
    let doc = Doc::new();
    let stale = UpdateBatch { wavelet: "a.local/w+1/conv+root".into(), update: text_update(&doc, "x"), acl_version: 2 };
    assert_eq!(apply_push(Some(&m), "b.local", &stale, &mut l).unwrap_err().0, 409);
    assert_eq!(l.update_count(), 0);
    let fresh = UpdateBatch { wavelet: stale.wavelet.clone(), update: stale.update.clone(), acl_version: 3 };
    assert_eq!(apply_push(Some(&m), "b.local", &fresh, &mut l).unwrap().count, 1);
    let bad = UpdateBatch { wavelet: stale.wavelet.clone(), update: vec![0xff, 0xff], acl_version: 3 };
    let e = apply_push(Some(&m), "b.local", &bad, &mut l).unwrap_err();
    assert_eq!(e.0, 400);
    assert!(e.1.starts_with("BadPayload(\""));
    assert_eq!(l.update_count(), 1);
}

#[test]
fn folder_shares_total_and_sort_their_files() {
    let f = |p: &str, n: u64| FileEntry { path: p.into(), size: n, mime: "text/plain".into(), chunks: vec![] };
    assert_eq!(folder_share("a.local/w+1", "docs", "ada@a.local", "a.local", vec![], 1).unwrap_err().1, "no files in upload");
    let (bytes, share) =
        folder_share("a.local/w+1", "docs", "ada@a.local", "a.local", vec![f("z.txt", 3), f("a.txt", 4)], 9).unwrap();
    assert_eq!(share.total_size, 7);
    assert_eq!(share.file_count, 2);
    assert!(share.mirrored);
    assert_eq!(share.origin_domain, "a.local");
    assert_eq!(share.manifest_hash, Cas::key_of(&bytes));
    let m = decode_manifest(&bytes).unwrap();
    assert_eq!(m.files[0].path, "a.txt");
    assert_eq!(m.total_size, 7);
    assert_eq!(m.created_ms, 9);
}

#[test]
fn mentions_are_answered_once_within_the_budget() {
    let mut w = MentionWorker::new();
    let agent = "assistant@localhost";
    assert!(w.on_blip("w", "b1", "ada@localhost", agent, "hi @assistant", "@assistant", 1000, 2000));
    assert!(!w.on_blip("w", "b1", "ada@localhost", agent, "hi @assistant", "@assistant", 1000, 2000));
    assert!(!w.on_blip("w", "b2", agent, agent, "@assistant", "@assistant", 1000, 2000));
    assert!(!w.on_blip("w", "b3", "ada@localhost", agent, "no mention", "@assistant", 1000, 2000));
    let mut answered = 1;
    for i in 0..30 {
        if w.on_blip("w", &format!("c{i}"), "ada@localhost", agent, "@assistant", "@assistant", 1000, 2000) {
            answered += 1;
        }
    }
    assert_eq!(answered, MENTION_BUDGET);
}

#[test]
fn pooled_providers_are_reused() {
    let mut pool = ModelPool::new();
    let a = pool.provider_for("http://h", "m");
    let b = pool.provider_for("http://h", "m");
    assert_eq!(a.endpoint, b.endpoint);
    assert_eq!(a.model, b.model);
}

#[test]
fn subscriptions_check_in_order() {
    let ada: ParticipantId = "ada@a.local".parse().unwrap();
    let e = admit_subscription("nonsense", &Ok(None), &ada).unwrap_err();
    assert!(!e.is_empty());
    assert!(admit_subscription("a.local/w+1/conv+root", &Ok(None), &ada).is_err());
    let m = meta("a.local/w+1", &["ada@a.local"], 1);
    let name = admit_subscription("a.local/w+1/conv+root", &Ok(Some(m)), &ada).unwrap();
    let mut l = live();
    l.set_awareness(7, vec![1, 2]);
    let s = open_subscription("a.local/w+1/conv+root", &name, &l, &[], "a.local").unwrap();
    assert!(!s.pull);
    assert_eq!(s.awareness.len(), 1);
    assert!(open_subscription("a.local/w+1/conv+root", &name, &l, &[0xff], "a.local").is_err());
    assert!(open_subscription("a.local/w+1/conv+root", &name, &l, &[], "b.local").unwrap().pull);
    let doc = Doc::new();
    assert!(sync_message_step("w", false, &mut l, Some(text_update(&doc, "x"))).is_some());
    assert_eq!(l.update_count(), 0);
    assert!(sync_message_step("w", true, &mut l, Some(text_update(&doc, "y"))).is_none());
    assert_eq!(l.update_count(), 1);
    assert!(sync_message_step("w", true, &mut l, None).is_none());
    assert!(sync_message_step("w", true, &mut l, Some(vec![0xff, 0xff])).is_some());
    assert_eq!(l.update_count(), 1);
}

#[test]
fn adding_participants_checks_in_order() {
    let ada: ParticipantId = "ada@a.local".parse().unwrap();
    let m = || Some(meta("a.local/w+1", &["ada@a.local"], 1));
    assert_eq!(add_participant_step("bad name", "a.local", true, m(), &ada, 9).unwrap_err().0, 400);
    let e = add_participant_step("bob@a.local", "a.local", false, m(), &ada, 9).unwrap_err();
    assert_eq!(e.1, "no such account on this server");
    assert_eq!(add_participant_step("bob@b.local", "a.local", false, None, &ada, 9).unwrap_err().0, 404);
    let (w, changed) = add_participant_step("Bob@B.local", "a.local", false, m(), &ada, 9).unwrap();
    assert!(changed);
    assert_eq!(w.participants, vec!["ada@a.local".to_string(), "bob@b.local".to_string()]);
    assert_eq!(w.acl_version, 2);
}

#[test]
fn parsed_participants_print_lower_cased() {
    let p: ParticipantId = "Ada.Lovelace@Example.ORG".parse().unwrap();
    assert_eq!(p.to_string(), "ada.lovelace@example.org");
    let q: ParticipantId = p.to_string().parse().unwrap();
    assert_eq!(q, p);
}

#[test]
fn agent_turns_fail_in_order() {
    let route = || Some(Route { provider: Provider::ollama("http://h", "m"), provenance: "m · hosted by ada".to_string() });
    let m = meta("a.local/w+1", &["ada@a.local"], 1);
    let e = answer_step(None, route(), Ok("x".into())).unwrap_err();
    assert_eq!((e.0, e.1.as_str()), (404, "no such wave"));
    let e = answer_step(Some(&m), None, Ok("x".into())).unwrap_err();
    assert_eq!((e.0, e.1.as_str()), (503, "no model configured"));
    let e = answer_step(Some(&m), route(), Err("timeout".into())).unwrap_err();
    assert_eq!((e.0, e.1.as_str()), (502, "inference failed: timeout"));
    let (answer, provenance) = answer_step(Some(&m), route(), Ok("42".into())).unwrap();
    assert_eq!(answer, "42");
    assert_eq!(provenance, "m · hosted by ada");
}

#[test]
fn corrupt_peer_chunks_are_passed_over() {
    let good = b"chunk bytes".to_vec();
    let key = Cas::key_of(&good);
    assert!(matches!(chunk_reply(&key, Some(good.clone())), ChunkStep::Accept(b) if b == good));
    assert!(matches!(chunk_reply(&key, Some(b"tampered".to_vec())), ChunkStep::TryNext));
    assert!(matches!(chunk_reply(&key, None), ChunkStep::TryNext));
}

#[test]
fn adding_a_listed_participant_again_changes_nothing() {
    let ada: ParticipantId = "ada@a.local".parse().unwrap();
    let bob: ParticipantId = "bob@b.local".parse().unwrap();
    let (m1, changed) = add_participant_to(meta("a.local/w+1", &["ada@a.local"], 1), &ada, &bob, "a.local", 10).unwrap();
    assert!(changed);
    assert_eq!(m1.acl_version, 2);
    let (m2, changed) = add_participant_to(m1.clone(), &ada, &bob, "a.local", 20).unwrap();
    assert!(!changed);
    assert_eq!(m2.participants, m1.participants);
    assert_eq!(m2.acl_version, 2);
    assert_eq!(m2.last_activity_ms, 10);
}
