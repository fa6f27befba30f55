use protowave::agent::{
    agent_address, agent_can_answer, agent_mention, build_context, check_prompt, mention_action, plan_agent_blip,
    select_route, strip_html, InferenceHub, InferenceProvider, MentionAction, ModelPool, Provider, ProviderKind,
};
use protowave::attachments::{check_attachment_size, content_disposition, require_participant, upload_mime, upload_name};
use protowave::cas::Cas;
use protowave::limits::{require_admin, RateLimiter};
use protowave::models::{model_to_save, partition_models, validate, ModelRequest, UserModel};
use protowave::search::{collect_hits, IndexedDoc, SearchHit};
use protowave::settings::{provider_choice, require_owner};
use protowave::shares::{
    accept_blob_request, accept_share_announce, check_folder_name, check_upload_file, chunk_file, chunk_sources,
    download_name, find_file, guess_mime, sort_by_path, try_order, FileEntry,
};
use protowave::store::{decode_log, decode_snapshot, encode_log, encode_snapshot, wavelet_record, WaveMeta};
use protowave::translate::{translate_gate, MockTranslator, TranslationHub, Translator};
use protowave::ParticipantId;

fn meta(wave: &str, participants: &[&str]) -> WaveMeta {
    WaveMeta {
        wave: wave.to_string(),
        title: "t".to_string(),
        participants: participants.iter().map(|p| p.to_string()).collect(),
        created_by: participants[0].to_string(),
        created_ms: 1,
        last_activity_ms: 1,
        acl_version: 1,
        translation_enabled: false,
    }
}

fn model(id: &str, owner: &str, scope: &str, enabled: bool) -> UserModel {
    UserModel {
        id: id.into(),
        owner: owner.into(),
        label: "l".into(),
        base: "http://h:11434".into(),
        model: format!("m-{id}"),
        scope: scope.into(),
        enabled,
        created_ms: 0,
    }
}

// ---------------------------------------------------------------------------
// Rate limiting
// ---------------------------------------------------------------------------

#[test]
fn limiter_allows_max_per_window() {
    let mut l = RateLimiter::new();
    for _ in 0..30 {
        assert!(l.check_at("ada", "create_wave", 30, 3_600_000, 1000).is_ok());
    }
    let e = l.check_at("ada", "create_wave", 30, 3_600_000, 2000).unwrap_err();
    assert_eq!(e.0, 429);
    assert_eq!(e.1, "slow down — rate limit exceeded");
    // Other keys and actions are counted apart.
    assert!(l.check_at("bob", "create_wave", 30, 3_600_000, 2000).is_ok());
    assert!(l.check_at("ada", "ask", 30, 3_600_000, 2000).is_ok());
    // After the window a fresh one opens.
    assert!(l.check_at("ada", "create_wave", 30, 3_600_000, 1000 + 3_600_000).is_ok());
}

#[test]
fn limiter_with_clock_counts() {
    let mut l = RateLimiter::new();
    assert!(l.check("k", "a", 1, 60_000).is_ok());
    assert!(l.check("k", "a", 1, 60_000).is_err());
}

#[test]
fn admin_is_configured_local_account() {
    let ada: ParticipantId = "ada@localhost".parse().unwrap();
    let eve: ParticipantId = "ada@elsewhere".parse().unwrap();
    assert!(require_admin("ada", &ada, "localhost").is_ok());
    assert_eq!(require_admin("", &ada, "localhost").unwrap_err().0, 403);
    assert_eq!(require_admin("ada", &eve, "localhost").unwrap_err().1, "admin only");
}

// ---------------------------------------------------------------------------
// The agent
// ---------------------------------------------------------------------------

#[test]
fn providers_report_their_model() {
    let o = Provider::ollama("http://127.0.0.1:11434//", "gemma3:270m");
    assert_eq!(o.endpoint, "http://127.0.0.1:11434");
    assert_eq!(o.model(), "ollama/gemma3:270m");
    let g = Provider::gemini("key", "gemini-x");
    assert_eq!(g.model(), "gemini-x");
    let mut hub = InferenceHub::new();
    assert!(!hub.available());
    assert!(hub.model().is_none());
    hub.set(o);
    assert!(hub.available());
    assert_eq!(hub.model().unwrap(), "ollama/gemma3:270m");
    assert_eq!(hub.get().unwrap().kind, ProviderKind::Ollama);
}

#[test]
fn pool_caches_providers_by_base_and_model() {
    let mut pool = ModelPool::new();
    let a = pool.provider_for("http://h/", "m");
    let b = pool.provider_for("http://h/", "m");
    assert_eq!(a.endpoint, "http://h");
    assert_eq!(b.endpoint, "http://h");
    assert_eq!(b.model(), "ollama/m");
}

#[test]
fn routing_precedence() {
    let ada: ParticipantId = "ada@localhost".parse().unwrap();
    let participants = vec!["ada@localhost".to_string(), "bob@localhost".to_string()];
    let models = vec![
        model("1", "bob@localhost", "wave", true),
        model("2", "ada@localhost", "private", true),
    ];
    let mut pool = ModelPool::new();
    // The asker's own model wins, whatever its scope.
    let r = select_route(&mut pool, &models, &participants, Some(&ada), None).unwrap();
    assert_eq!(r.provenance, "m-2 · hosted by ada");
    // Without an asker, a participant's shared model.
    let r = select_route(&mut pool, &models, &participants, None, None).unwrap();
    assert_eq!(r.provenance, "m-1 · hosted by bob");
    // A private model of someone else, or a disabled one, is not used.
    let models = vec![model("3", "bob@localhost", "private", true), model("4", "bob@localhost", "wave", false)];
    let r = select_route(&mut pool, &models, &participants, None, Some(Provider::gemini("k", "g")));
    assert_eq!(r.unwrap().provenance, "g");
    assert!(select_route(&mut pool, &models, &participants, None, None).is_none());
    // Shared models of non-participants are not used.
    let models = vec![model("5", "eve@localhost", "federation", true)];
    assert!(select_route(&mut pool, &models, &participants, None, None).is_none());
}

#[test]
fn strip_html_drops_tags() {
    assert_eq!(strip_html("the <b>harbor</b> plan"), "the harbor plan");
    assert_eq!(strip_html("a<b"), "a");
    assert_eq!(strip_html("x > y"), "x  y");
}

#[test]
fn context_sections() {
    let live: Vec<(String, String)> = (0..14).map(|i| (format!("b{i}"), format!("t{i}"))).collect();
    let hits = vec![SearchHit { wave: "w".into(), title: "Plans".into(), snippet: "the <b>harbor</b>".into() }];
    let shares = vec![("dataset".to_string(), 2u32)];
    let ctx = build_context(&live, &hits, &shares);
    let mut expected = String::from("Recent messages on this wave:\n");
    for i in 2..14 {
        expected.push_str(&format!("- t{i}\n"));
    }
    expected.push_str("\nRelevant waves you can access:\n- [Plans] the harbor\n");
    expected.push_str("\nShared files on this wave:\n- dataset (2 files)\n");
    assert_eq!(ctx, expected);
    let small = build_context(&vec![("b".into(), "hi".into())], &vec![], &vec![]);
    assert_eq!(small, "Recent messages on this wave:\n- hi\n");
}

#[test]
fn prompts_and_addresses() {
    assert_eq!(check_prompt("  what?  ").unwrap(), "what?");
    assert_eq!(check_prompt("   ").unwrap_err().1, "prompt must be 1-4000 chars");
    assert!(check_prompt(&"x".repeat(4001)).is_err());
    assert!(check_prompt(&"x".repeat(4000)).is_ok());
    assert_eq!(agent_address("localhost"), "assistant@localhost");
    assert_eq!(agent_mention(), "@assistant");
}

#[test]
fn mention_decisions() {
    let handled = vec!["b1".to_string()];
    let now = 10 * 60 * 1000 + 5;
    let act = |id: &str, author: &str, text: &str, ts: u64| {
        mention_action(&handled, id, author, "assistant@localhost", text, "@assistant", ts, now)
    };
    assert_eq!(act("b1", "ada@localhost", "@assistant hi", now), MentionAction::Skip);
    assert_eq!(act("b2", "assistant@localhost", "@assistant", now), MentionAction::MarkHandled);
    assert_eq!(act("b3", "ada@localhost", "no mention", now), MentionAction::Skip);
    assert_eq!(act("b4", "ada@localhost", "hey @assistant, what about the harbor?", 0), MentionAction::MarkHandled);
    assert_eq!(act("b5", "ada@localhost", "hey @assistant, what about the harbor?", now - 1000), MentionAction::Answer);
    assert!(agent_can_answer(true, &vec![]));
    assert!(!agent_can_answer(false, &vec![model("1", "a@b", "wave", false)]));
    assert!(agent_can_answer(false, &vec![model("1", "a@b", "wave", true)]));
}

#[test]
fn agent_blips_have_one_paragraph_per_line() {
    let b = plan_agent_blip("assistant@localhost", "one\n\nthree", Some("b+root"), 42);
    assert!(b.id.starts_with("b+"));
    assert_eq!(b.id.len(), 14);
    assert_eq!(b.paragraphs, vec!["one".to_string(), "".to_string(), "three".to_string()]);
    assert_eq!(b.parent.as_deref(), Some("b+root"));
    assert_eq!(b.ts, 42);
}

// ---------------------------------------------------------------------------
// Shares and attachments
// ---------------------------------------------------------------------------

#[test]
fn mime_guessing() {
    assert_eq!(guess_mime("dataset/readme.MD"), "text/markdown");
    assert_eq!(guess_mime("a.b.JPEG"), "image/jpeg");
    assert_eq!(guess_mime("noext"), "application/octet-stream");
    assert_eq!(guess_mime("x.zip"), "application/zip");
}

#[test]
fn upload_checks() {
    assert_eq!(check_upload_file("dir\\f.txt", 3).unwrap().unwrap(), "dir/f.txt");
    assert!(check_upload_file("f.txt", 0).unwrap().is_none());
    assert_eq!(check_upload_file("../etc/passwd", 3).unwrap_err().1, "bad file path in upload");
    assert_eq!(check_upload_file("", 3).unwrap_err().0, 400);
    let big = check_upload_file("big.bin", 128 * 1024 * 1024 + 1).unwrap_err();
    assert_eq!((big.0, big.1.as_str()), (413, "big.bin: file exceeds 128 MB"));
    assert_eq!(check_folder_name("  papers ").unwrap(), "papers");
    assert!(check_folder_name(" ").is_err());
    assert!(check_folder_name(&"x".repeat(121)).is_err());
    assert_eq!(download_name("dataset/sub/\"q\".txt"), "q.txt");
}

#[test]
fn chunks_tile_and_dedup() {
    let data: Vec<u8> = (0..3_000_000u32).map(|i| (i % 251) as u8).collect();
    let chunks = chunk_file(&data);
    assert!(chunks.len() > 1, "3MB file must span multiple chunks");
    let mut joined = Vec::new();
    let mut at = 0;
    for c in &chunks {
        assert_eq!(c.offset, at);
        assert!(c.length <= 1024 * 1024);
        joined.extend_from_slice(&data[c.offset..c.offset + c.length]);
        assert_eq!(c.key, Cas::key_of(&data[c.offset..c.offset + c.length]));
        at += c.length;
    }
    assert_eq!(joined, data);
    // Changing the tail leaves the leading chunks' keys unchanged.
    let mut v2 = data.clone();
    let n = v2.len();
    v2[n - 1] ^= 0xff;
    let chunks2 = chunk_file(&v2);
    assert_eq!(chunks[0].key, chunks2[0].key);
    assert!(chunk_file(&[]).is_empty());
}

#[test]
fn swarm_order() {
    let remotes = vec!["a.local".to_string(), "b.local".to_string(), "c.local".to_string()];
    let s = chunk_sources("b.local", &remotes, "c.local");
    assert_eq!(s, vec!["b.local".to_string(), "a.local".to_string()]);
    let order = try_order(&vec!["x".into(), "y".into(), "z".into()], 4);
    assert_eq!(order, vec!["y".to_string(), "z".to_string(), "x".to_string()]);
    assert!(try_order(&vec![], 3).is_empty());
}

#[test]
fn federation_access_to_shares() {
    let m = meta("a.local/w+1", &["ada@a.local", "bob@b.local"]);
    assert!(accept_share_announce(&m, "bob@b.local", "b.local").is_ok());
    let forged = accept_share_announce(&m, "ada@a.local", "b.local").unwrap_err();
    assert_eq!((forged.0, forged.1.as_str()), (403, "not a participant domain"));
    assert!(accept_share_announce(&m, "eve@evil.example", "evil.example").is_err());
    assert!(accept_blob_request(&m, "b.local").is_ok());
    assert!(accept_blob_request(&m, "evil.example").is_err());
}

#[test]
fn manifests_sort_files_by_path() {
    let f = |p: &str| FileEntry { path: p.into(), size: 1, mime: "x".into(), chunks: vec![] };
    let sorted = sort_by_path(vec![f("dataset/readme.md"), f("dataset/big.bin"), f("a")]);
    let paths: Vec<&str> = sorted.iter().map(|e| e.path.as_str()).collect();
    assert_eq!(paths, vec!["a", "dataset/big.bin", "dataset/readme.md"]);
    assert_eq!(find_file(&sorted, "dataset/big.bin"), Some(1));
    assert_eq!(find_file(&sorted, "nope"), None);
}

#[test]
fn attachment_rules() {
    let m = meta("localhost/w+1", &["ada@localhost"]);
    assert!(require_participant(Some(&m), "ada@localhost").is_ok());
    assert_eq!(require_participant(Some(&m), "carol@localhost").unwrap_err().0, 403);
    assert_eq!(require_participant(None, "ada@localhost").unwrap_err().1, "no such wave");
    assert_eq!(check_attachment_size(0).unwrap_err().1, "empty file");
    assert_eq!(check_attachment_size(25 * 1024 * 1024 + 1).unwrap_err().0, 413);
    assert!(check_attachment_size(42).is_ok());
    assert_eq!(upload_name(None), "unnamed");
    assert_eq!(upload_mime(None), "application/octet-stream");
    assert_eq!(content_disposition("text/markdown", "no\"tes.md"), "inline; filename=\"notes.md\"");
    assert_eq!(content_disposition("application/zip", "a.zip"), "attachment; filename=\"a.zip\"");
}

#[test]
fn content_keys_dedup_and_verify() {
    let k1 = Cas::key_of(b"hello wave");
    let k2 = Cas::key_of(b"hello wave");
    assert_eq!(k1.len(), 64);
    assert_eq!(k1, k2);
    assert!(Cas::verifies(&k1, b"hello wave"));
    assert!(!Cas::verifies(&k1, b"hello wavf"));
    assert!(Cas::lookup_key(&k1));
    assert!(!Cas::lookup_key("not-a-hash"));
    assert_eq!(Cas::shard(&k1), k1[..2].to_string());
}

#[test]
fn content_keys_are_blake3_hex() {
    assert_eq!(Cas::key_of(b""), "af1349b9f5f9a1a6a0404dea36dcc9499bcb25c9adc112b7cc9a93cae41f3262");
}

// ---------------------------------------------------------------------------
// Search, settings, models
// ---------------------------------------------------------------------------

#[test]
fn search_hits_respect_acl_and_limit() {
    let d = |w: &str, snippet: Option<&str>| IndexedDoc {
        wave: w.into(),
        title: format!("T {w}"),
        body: "b".repeat(200),
        snippet: snippet.map(|s| s.to_string()),
    };
    let docs = vec![d("d/w2", Some("secret")), d("d/w1", Some("")), d("d/w3", None), d("d/w1", Some("x"))];
    let allowed = vec!["d/w1".to_string(), "d/w3".to_string()];
    let hits = collect_hits(&docs, &allowed, 2);
    assert_eq!(hits.len(), 2);
    assert_eq!(hits[0].wave, "d/w1");
    assert_eq!(hits[0].snippet, "b".repeat(140));
    assert_eq!(hits[1].wave, "d/w3");
    assert_eq!(collect_hits(&docs, &allowed, 10).len(), 3);
}

#[test]
fn provider_choices() {
    assert_eq!(provider_choice("ollama", "http://h", "m", None).unwrap().model(), "ollama/m");
    assert_eq!(provider_choice("ollama", "", "m", None).unwrap_err().1, "ollama needs a base URL and model");
    assert_eq!(
        provider_choice("gemini", "", "", None).unwrap_err().1,
        "no Gemini API key configured (set PROTOMOLECULE)"
    );
    assert_eq!(provider_choice("gemini", "", "", Some("k")).unwrap().model(), "gemini-3.1-flash-lite");
    assert_eq!(provider_choice("nope", "", "", None).unwrap_err().1, "unknown provider: nope");
    let ada: ParticipantId = "ada@localhost".parse().unwrap();
    assert!(require_owner(Some("ada@localhost"), &ada).is_ok());
    assert_eq!(require_owner(Some("bob@localhost"), &ada).unwrap_err().0, 403);
    assert!(require_owner(None, &ada).is_err());
}

#[test]
fn model_pool_requests() {
    let req = |base: &str, scope: &str| ModelRequest {
        id: String::new(),
        label: " mine ".into(),
        base: base.into(),
        model: " llama ".into(),
        scope: scope.into(),
        enabled: true,
    };
    assert!(validate(&req("http://h", "wave")).is_ok());
    assert_eq!(validate(&req("ftp://h", "wave")).unwrap_err().1, "base must be an http(s) URL");
    assert_eq!(validate(&req("http://h", "world")).unwrap_err().1, "scope must be private, wave or federation");
    let saved = model_to_save(req(" http://h// ", "wave"), "ada@localhost", None, 0, 7).unwrap();
    assert!(saved.id.starts_with("m+"));
    assert_eq!(saved.base, "http://h");
    assert_eq!(saved.label, "mine");
    assert_eq!(saved.created_ms, 7);
    assert_eq!(model_to_save(req("http://h", "wave"), "ada@localhost", None, 10, 7).unwrap_err().0, 400);
    let mut edit = req("http://h", "wave");
    edit.id = "m+1".into();
    let theirs = model("m+1", "bob@localhost", "wave", true);
    assert_eq!(model_to_save(edit, "ada@localhost", Some(theirs), 0, 7).unwrap_err().1, "not your model");
    let all = vec![
        model("1", "ada@localhost", "private", false),
        model("2", "bob@localhost", "wave", true),
        model("3", "bob@localhost", "private", true),
    ];
    let (mine, pool) = partition_models(all, "ada@localhost");
    assert_eq!(mine.len(), 1);
    assert_eq!(pool.len(), 1);
    assert_eq!(pool[0].id, "2");
}

// ---------------------------------------------------------------------------
// Translation
// ---------------------------------------------------------------------------

#[test]
fn mock_translator_marks_language() {
    let mut m = MockTranslator::default();
    assert_eq!(m.translate("es", "ctx", "the tide is coming in").unwrap(), "[es] the tide is coming in");
    assert_eq!(m.calls, 1);
}

#[test]
fn hub_subscriptions() {
    let mut hub: TranslationHub<MockTranslator> = TranslationHub::new(100);
    hub.subscribe("w", 1, "es");
    hub.subscribe("w", 2, "de");
    hub.subscribe("w", 3, "es");
    hub.subscribe("v", 4, "fr");
    assert_eq!(hub.languages_for("w"), vec!["de".to_string(), "es".to_string()]);
    assert_eq!(hub.targets("w", "es"), vec![1, 3]);
    hub.subscribe("w", 1, "fr");
    assert_eq!(hub.targets("w", "es"), vec![3]);
    hub.unsubscribe("w", 3);
    hub.drop_conn(4);
    assert_eq!(hub.languages_for("w"), vec!["de".to_string(), "fr".to_string()]);
    assert!(hub.languages_for("v").is_empty());
}

#[test]
fn overlays_flow_and_cache_freezes_in_hub() {
    let mut hub: TranslationHub<MockTranslator> = TranslationHub::new(100);
    let blips = vec![("b+root".to_string(), "the tide is coming in".to_string())];
    hub.subscribe("w", 1, "es");
    assert!(hub.translate_wavelet("w", &blips).is_empty(), "no provider, nothing leaves");
    hub.set_translator(MockTranslator::default());
    let out = hub.translate_wavelet("w", &blips);
    assert_eq!(out.len(), 1);
    assert_eq!(out[0].conns, vec![1]);
    assert_eq!(out[0].entries[0].0, "b+root");
    assert_eq!(out[0].entries[0].1, "[es] the tide is coming in");
    // A second round is served from the cache.
    hub.subscribe("w", 2, "es");
    let again = hub.translate_wavelet("w", &blips);
    assert_eq!(again[0].conns, vec![1, 2]);
    assert_eq!(again[0].frame, out[0].frame);
}

#[test]
fn translation_budget_is_enforced() {
    let mut hub: TranslationHub<MockTranslator> = TranslationHub::new(1);
    hub.set_translator(MockTranslator::default());
    hub.subscribe("w", 1, "es");
    let blips = vec![("a".to_string(), "one".to_string()), ("b".to_string(), "two".to_string())];
    let out = hub.translate_wavelet("w", &blips);
    assert_eq!(out[0].entries.len(), 1);
}

#[test]
fn translation_requires_wave_opt_in_gate() {
    let ada: ParticipantId = "ada@localhost".parse().unwrap();
    let mut m = meta("localhost/w+1", &["ada@localhost"]);
    let disabled = translate_gate("w", Some(&m), &ada, true).unwrap_err();
    assert_eq!(
        disabled,
        protowave::ws::error_frame("w", "translation-disabled", "translation is not enabled on this wave")
    );
    m.translation_enabled = true;
    assert!(translate_gate("w", Some(&m), &ada, true).is_ok());
    assert!(translate_gate("w", Some(&m), &ada, false).is_err());
    assert!(translate_gate("w", None, &ada, true).is_err());
}

// ---------------------------------------------------------------------------
// Storage formats
// ---------------------------------------------------------------------------

#[test]
fn update_log_roundtrip_and_snapshot_tail() {
    let updates = vec![b"u1".to_vec(), b"u2".to_vec(), b"u3".to_vec()];
    let log = encode_log(&updates);
    assert_eq!(decode_log(&log), updates);
    // A torn tail record is ignored.
    let mut torn = log.clone();
    torn.extend_from_slice(&[9, 0, 0, 0, 1]);
    assert_eq!(decode_log(&torn), updates);
    let snap = encode_snapshot(2, b"snap-at-2");
    assert_eq!(decode_snapshot(&snap), Some((2, b"snap-at-2".to_vec())));
    let rec = wavelet_record(updates.clone(), Some(snap));
    assert_eq!(rec.snapshot.as_deref(), Some(&b"snap-at-2"[..]));
    assert_eq!(rec.tail, vec![b"u3".to_vec()]);
    assert_eq!(rec.total_updates, 3);
    let rec = wavelet_record(updates, None);
    assert!(rec.snapshot.is_none());
    assert_eq!(rec.tail.len(), 3);
}
