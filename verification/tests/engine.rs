use protowave::agent::plan_agent_blip;
use protowave::engine::post_agent_blip;
use yrs::{Any, Array, Value, XmlFragment};
use protowave::engine::{EngineError, LiveWavelet, SNAPSHOT_INTERVAL};
use protowave::WaveletName;
use protowave::store::{decode_log, decode_snapshot, encode_log, encode_snapshot, wavelet_record};
use yrs::updates::decoder::Decode;
use yrs::{Doc, GetString, ReadTxn, Text, Transact, Update};

fn text_update(doc: &Doc, text: &str) -> Vec<u8> {
    let t = doc.get_or_insert_text("t");
    let before = doc.transact().state_vector();
    {
        let mut txn = doc.transact_mut();
        let len = t.get_string(&txn).len() as u32;
        t.insert(&mut txn, len, text);
    }
    doc.transact().encode_diff_v1(&before)
}

fn text_of(diff: &[u8]) -> String {
    let d = Doc::new();
    d.transact_mut().apply_update(Update::decode_v1(diff).unwrap());
    let t = d.get_or_insert_text("t");
    let txn = d.transact();
    t.get_string(&txn)
}

fn name() -> WaveletName {
    "example.org/w+1/conv+root".parse().unwrap()
}

fn empty() -> LiveWavelet {
    LiveWavelet::open(name(), &wavelet_record(Vec::new(), None)).unwrap()
}

#[test]
fn concurrent_edits_converge_and_persist() {
    let mut live = empty();
    let mut log: Vec<Vec<u8>> = Vec::new();

    // Two independent client docs edit concurrently.
    let a = Doc::new();
    let b = Doc::new();
    for u in [text_update(&a, "hello "), text_update(&b, "world")] {
        let applied = live.apply(&u).unwrap();
        log.push(u);
        assert_eq!(applied.count, log.len() as u64);
        assert!(applied.snapshot.is_none());
    }

    // A fresh client syncs from empty and sees both edits.
    let (_sv, diff) = live.sync_state(&[]).unwrap();
    let merged = text_of(&diff);
    assert!(merged.contains("hello"));
    assert!(merged.contains("world"));

    // Reopen from the persisted log: same state.
    let bytes = encode_log(&log);
    let live2 = LiveWavelet::open(name(), &wavelet_record(decode_log(&bytes), None)).unwrap();
    assert_eq!(live2.update_count(), 2);
    let (_sv2, diff2) = live2.sync_state(&[]).unwrap();
    assert_eq!(text_of(&diff2), merged);
}

#[test]
fn stale_client_gets_only_missing_diff() {
    let mut live = empty();
    let a = Doc::new();
    live.apply(&text_update(&a, "one")).unwrap();

    // Client that already has "one" hands over its state vector...
    let (sv_after_one, diff1) = live.sync_state(&[]).unwrap();
    let client = Doc::new();
    client.transact_mut().apply_update(Update::decode_v1(&diff1).unwrap());

    live.apply(&text_update(&a, " two")).unwrap();

    // ...and receives a diff containing only " two".
    let (_sv, diff2) = live.sync_state(&sv_after_one).unwrap();
    client.transact_mut().apply_update(Update::decode_v1(&diff2).unwrap());
    let t = client.get_or_insert_text("t");
    let txn = client.transact();
    assert_eq!(t.get_string(&txn), "one two");
}

#[test]
fn bad_payloads_change_nothing() {
    let mut live = empty();
    assert!(matches!(live.apply(&[0xff, 0xff, 0xff]), Err(EngineError::BadPayload(_))));
    assert_eq!(live.update_count(), 0);
    assert!(matches!(live.sync_state(&[0xff]), Err(EngineError::BadPayload(_))));
    assert!(matches!(
        LiveWavelet::open(name(), &wavelet_record(vec![vec![0xff, 0xff]], None)),
        Err(EngineError::BadPayload(_))
    ));
}

#[test]
fn snapshots_come_every_interval_and_reopen() {
    let mut live = empty();
    let a = Doc::new();
    let mut log: Vec<Vec<u8>> = Vec::new();
    let mut snap: Option<Vec<u8>> = None;
    for i in 0..SNAPSHOT_INTERVAL + 3 {
        let u = text_update(&a, "x");
        let applied = live.apply(&u).unwrap();
        log.push(u);
        assert_eq!(applied.snapshot.is_some(), (i + 1) % SNAPSHOT_INTERVAL == 0);
        if let Some(s) = applied.snapshot {
            snap = Some(encode_snapshot(applied.count, &s));
        }
    }
    let snap = snap.unwrap();
    assert_eq!(decode_snapshot(&snap).unwrap().0, SNAPSHOT_INTERVAL);
    let record = wavelet_record(log, Some(snap));
    assert_eq!(record.tail.len(), 3);
    let reopened = LiveWavelet::open(name(), &record).unwrap();
    assert_eq!(reopened.update_count(), SNAPSHOT_INTERVAL + 3);
    let (_sv, diff) = reopened.sync_state(&[]).unwrap();
    assert_eq!(text_of(&diff).len() as u64, SNAPSHOT_INTERVAL + 3);
}

#[test]
fn awareness_is_cached_per_connection_and_replayed() {
    let mut live = empty();
    assert_eq!(live.name.to_string(), "example.org/w+1/conv+root");
    live.set_awareness(1, vec![1]);
    live.set_awareness(2, vec![2]);
    live.set_awareness(1, vec![3]);
    assert_eq!(live.cached_awareness(), vec![vec![3], vec![2]]);
    live.drop_awareness(1);
    assert_eq!(live.cached_awareness(), vec![vec![2]]);
    live.drop_awareness(9);
    assert_eq!(live.cached_awareness(), vec![vec![2]]);
}

#[test]
fn agent_blips_are_written_as_the_web_client_reads_them() {
    let mut live = empty();
    live.apply(&text_update(&Doc::new(), "before")).unwrap();
    let blip = plan_agent_blip("assistant@example.org", "hello\n\nworld", Some("b+0102"), 1_700_000_000_123);
    let (update, applied) = post_agent_blip(&mut live, &blip);
    assert_eq!(applied.count, 2);
    assert!(applied.snapshot.is_none());
    assert_eq!(live.update_count(), 2);

    let doc = Doc::new();
    doc.transact_mut().apply_update(Update::decode_v1(&update).unwrap());
    let manifest = doc.get_or_insert_array("manifest");
    let blips = doc.get_or_insert_map("blips");
    let txn = doc.transact();
    assert_eq!(manifest.len(&txn), 1);
    match manifest.get(&txn, 0) {
        Some(Value::Any(Any::Map(entry))) => {
            assert_eq!(entry.get("id"), Some(&Any::from(blip.id.as_str())));
            assert_eq!(entry.get("author"), Some(&Any::from("assistant@example.org")));
            assert_eq!(entry.get("ts"), Some(&Any::Number(1_700_000_000_123.0)));
            assert_eq!(entry.get("parent"), Some(&Any::from("b+0102")));
        }
        other => panic!("unexpected manifest entry {other:?}"),
    }
    match yrs::Map::get(&blips, &txn, blip.id.as_str()) {
        Some(Value::YXmlFragment(f)) => {
            assert_eq!(f.len(&txn), 3);
            assert_eq!(
                f.get_string(&txn),
                "<paragraph>hello</paragraph><paragraph></paragraph><paragraph>world</paragraph>"
            );
        }
        other => panic!("unexpected blip {other:?}"),
    }
}

#[test]
fn a_top_level_agent_blip_has_a_null_parent() {
    let mut live = empty();
    let blip = plan_agent_blip("assistant@example.org", "hi", None, 5);
    let (update, _) = post_agent_blip(&mut live, &blip);
    let doc = Doc::new();
    doc.transact_mut().apply_update(Update::decode_v1(&update).unwrap());
    let manifest = doc.get_or_insert_array("manifest");
    let txn = doc.transact();
    match manifest.get(&txn, 0) {
        Some(Value::Any(Any::Map(entry))) => assert_eq!(entry.get("parent"), Some(&Any::Null)),
        other => panic!("unexpected manifest entry {other:?}"),
    }
}
