use protowave::store::{Account, AttachmentMeta, WaveMeta};
use protowave::tables::{FileStore, Table, WaveStore};
use protowave::ParticipantId;

fn wave(id: &str, i: u64, who: &ParticipantId) -> WaveMeta {
    WaveMeta {
        wave: id.to_string(),
        title: format!("wave {i}"),
        participants: vec![who.to_string()],
        created_by: who.to_string(),
        created_ms: i,
        last_activity_ms: i,
        acl_version: 1,
        translation_enabled: false,
    }
}

#[test]
fn accounts_sessions_waves_marks_attachments() {
    let mut store = FileStore::new("/tmp/protowave-test", false);
    let ada: ParticipantId = "ada@example.org".parse().unwrap();
    let acct = Account { participant: ada.to_string(), password_hash: "phc".into(), created_ms: 1 };
    let again = Account { participant: ada.to_string(), password_hash: "phc".into(), created_ms: 1 };
    assert!(store.create_account(acct));
    assert!(!store.create_account(again));
    assert!(store.get_account(&ada).is_some());

    store.put_session("sid1", &ada);
    assert_eq!(store.get_session("sid1"), Some(ada.clone()));
    store.delete_session("sid1");
    assert_eq!(store.get_session("sid1"), None);

    for (i, w) in ["example.org/w+a", "example.org/w+b"].iter().enumerate() {
        store.put_wave(wave(w, i as u64, &ada));
    }
    store.touch_wave("example.org/w+a", 99);
    let list = store.list_waves_for(&ada);
    assert_eq!(list.len(), 2);
    assert_eq!(list[0].wave, "example.org/w+a"); // most recent first

    store.set_read_mark(&ada, "example.org/w+a", 50);
    let marks = store.read_marks(&ada);
    assert_eq!(marks, vec![("example.org/w+a".to_string(), 50)]);

    let att = AttachmentMeta {
        hash: "abc123".into(),
        wave: "example.org/w+a".into(),
        name: "notes.md".into(),
        mime: "text/markdown".into(),
        size: 42,
        uploader: ada.to_string(),
        created_ms: 7,
    };
    store.put_attachment(att);
    assert_eq!(store.get_attachment("abc123").unwrap().name, "notes.md");
    assert_eq!(store.list_attachments("example.org/w+a").len(), 1);
    assert_eq!(store.list_attachments("example.org/w+b").len(), 0);
}

#[test]
fn touch_only_moves_activity_forward() {
    let mut store = FileStore::new("/tmp/protowave-test", false);
    let ada: ParticipantId = "ada@example.org".parse().unwrap();
    store.put_wave(wave("example.org/w+a", 10, &ada));
    assert!(!store.touch_wave("example.org/w+a", 5));
    assert_eq!(store.get_wave("example.org/w+a").unwrap().last_activity_ms, 10);
    assert!(store.touch_wave("example.org/w+a", 20));
    assert_eq!(store.get_wave("example.org/w+a").unwrap().last_activity_ms, 20);
    assert!(!store.touch_wave("example.org/w+missing", 30));
}

#[test]
fn waves_of_others_are_not_listed() {
    let mut store = FileStore::new("/tmp/protowave-test", false);
    let ada: ParticipantId = "ada@example.org".parse().unwrap();
    let bob: ParticipantId = "bob@example.org".parse().unwrap();
    store.put_wave(wave("example.org/w+a", 1, &ada));
    store.put_wave(wave("example.org/w+b", 2, &bob));
    let list = store.list_waves_for(&bob);
    assert_eq!(list.len(), 1);
    assert_eq!(list[0].wave, "example.org/w+b");
}

#[test]
fn read_marks_are_per_participant_and_overwrite() {
    let mut store = FileStore::new("/tmp/protowave-test", false);
    let ada: ParticipantId = "ada@example.org".parse().unwrap();
    let bob: ParticipantId = "bob@example.org".parse().unwrap();
    store.set_read_mark(&ada, "example.org/w+a", 5);
    store.set_read_mark(&ada, "example.org/w+a", 7);
    store.set_read_mark(&ada, "example.org/w+b", 1);
    assert_eq!(store.read_marks(&ada).len(), 2);
    assert!(store.read_marks(&ada).contains(&("example.org/w+a".to_string(), 7)));
    assert!(store.read_marks(&bob).is_empty());
}

#[test]
fn peer_keys_are_pinned_per_domain() {
    let mut store = FileStore::new("/tmp/protowave-test", false);
    assert!(store.get_peer_key("b.local").is_none());
    store.put_peer_key("b.local", "aa");
    assert_eq!(store.get_peer_key("b.local").unwrap(), "aa");
    store.put_peer_key("b.local", "bb");
    assert_eq!(store.get_peer_key("b.local").unwrap(), "bb");
}

#[test]
fn tables_read_back_what_was_written() {
    let mut t: Table<u64> = Table::new();
    assert_eq!(t.len(), 0);
    t.insert("b", 2);
    t.insert("a", 1);
    t.insert("b", 3);
    assert_eq!(t.len(), 2);
    assert_eq!(t.get("b"), Some(&3));
    assert_eq!(t.get("a"), Some(&1));
    assert!(t.contains_key("a"));
    assert_eq!(t.take("a"), Some(1));
    assert!(!t.contains_key("a"));
    assert_eq!(t.take("a"), None);
    let (k, v) = t.row(0);
    assert_eq!((k, *v), ("b", 3));
}

fn through_trait<S: WaveStore>(store: &mut S, who: &ParticipantId) {
    assert!(WaveStore::create_account(
        store,
        Account { participant: who.to_string(), password_hash: "phc".into(), created_ms: 1 }
    ));
    assert!(WaveStore::get_account(store, who).is_some());
    WaveStore::put_session(store, "s1", who);
    assert_eq!(WaveStore::get_session(store, "s1"), Some(who.clone()));
    WaveStore::delete_session(store, "s1");
    assert_eq!(WaveStore::get_session(store, "s1"), None);
    WaveStore::put_wave(store, wave("example.org/w+a", 3, who));
    assert!(WaveStore::touch_wave(store, "example.org/w+a", 9));
    assert_eq!(WaveStore::get_wave(store, "example.org/w+a").unwrap().last_activity_ms, 9);
    WaveStore::put_peer_key(store, "b.local", "cc");
    assert_eq!(WaveStore::get_peer_key(store, "b.local").unwrap(), "cc");
}

#[test]
fn the_store_interface_reads_back_writes() {
    let mut store = FileStore::new("/tmp/protowave-test", false);
    let ada: ParticipantId = "ada@example.org".parse().unwrap();
    through_trait(&mut store, &ada);
    WaveStore::set_read_mark(&mut store, &ada, "example.org/w+a", 4);
    assert_eq!(store.read_marks(&ada), vec![("example.org/w+a".to_string(), 4)]);
}
