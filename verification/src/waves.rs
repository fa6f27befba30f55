//! The wave lifecycle: digests for the inbox, creation, membership and the
//! translation opt-in. Membership and policy are the home server's
//! authority; every change bumps the wave's ACL version.

use vstd::prelude::*;
use crate::common::{random_id, trim, trim_str, utf8_len, ApiError};
use crate::hexcode::hex_of;
use crate::id::{domain_id_text, participant_text, spec_domain_id, IdError, IdFault, ParticipantId, WaveId};
use crate::store::WaveMeta;
use crate::text::{chars_of, push_char, split_chars, split_on, str_eq, string_of, string_views};

verus! {

/// The root conversation wavelet id within a wave.
pub const ROOT_WAVELET: &'static str = "conv+root";

/// A wave as listed in a user's inbox.
#[derive(Debug)]
pub struct WaveDigest {
    pub wave: String,
    pub title: String,
    pub participants: Vec<String>,
    pub root_wavelet: String,
    pub created_by: String,
    pub last_activity_ms: u64,
    pub unread: bool,
    pub translation_enabled: bool,
}

#[derive(Debug)]
pub struct CreateWaveRequest {
    pub title: String,
}

#[derive(Debug)]
pub struct AddParticipantRequest {
    pub wave: String,
    pub participant: String,
}

#[derive(Debug)]
pub struct SetTranslationRequest {
    pub wave: String,
    pub enabled: bool,
}

#[derive(Debug)]
pub struct MarkReadRequest {
    pub wave: String,
}

#[derive(Debug)]
pub struct HistoryQuery {
    pub wavelet: String,
}

#[derive(Debug)]
pub struct SearchQuery {
    pub q: String,
}

impl WaveDigest {
    /// The digest of a wave for a user whose read mark is `read_mark`:
    /// unread when there was activity after the mark.
    pub fn new(meta: WaveMeta, read_mark: u64) -> (d: Self)
        ensures
            d.unread == (meta.last_activity_ms > read_mark),
            d.wave@ == meta.wave@,
            d.title@ == meta.title@,
            d.participants@ == meta.participants@,
            d.root_wavelet@ == meta.wave@ + "/conv+root"@,
            d.created_by@ == meta.created_by@,
            d.last_activity_ms == meta.last_activity_ms,
            d.translation_enabled == meta.translation_enabled,
    {
        let mut root_wavelet = meta.wave.as_str().to_owned();
        root_wavelet.append("/conv+root");
        WaveDigest {
            unread: meta.last_activity_ms > read_mark,
            wave: meta.wave,
            title: meta.title,
            participants: meta.participants,
            root_wavelet,
            created_by: meta.created_by,
            last_activity_ms: meta.last_activity_ms,
            translation_enabled: meta.translation_enabled,
        }
    }
}

/// Whether `who` (serialized) is on the participant list.
pub open spec fn on_wave(participants: Seq<String>, who: Seq<char>) -> bool {
    exists|i: int| 0 <= i < participants.len() && (#[trigger] participants[i])@ == who
}

/// `participants.contains(who)`.
pub fn is_participant(participants: &Vec<String>, who: &str) -> (b: bool)
    ensures
        b == on_wave(participants@, who@),
{
    let mut i: usize = 0;
    while i < participants.len()
        invariant
            i <= participants.len(),
            forall|k: int| 0 <= k < i ==> (#[trigger] participants@[k])@ != who@,
        decreases participants.len() - i,
    {
        if str_eq(participants[i].as_str(), who) {
            return true;
        }
        i += 1;
    }
    false
}

/// The home domain of a serialized wave id: the text before its first `/`.
pub open spec fn home_of(wave: Seq<char>) -> Seq<char> {
    split_on(wave, '/')[0]
}

pub fn home_domain(wave: &str) -> (r: String)
    ensures
        r@ == home_of(wave@),
{
    let cs = chars_of(wave);
    let parts = split_chars(cs.as_slice(), '/');
    proof { crate::text::lemma_split_len_pos(wave@, '/'); }
    assert(parts@.map_values(|x: Vec<char>| x@)[0] == parts@[0]@);
    string_of(parts[0].as_slice())
}

/// Why a wave cannot be created.
#[derive(Debug)]
pub enum CreateFault {
    /// The trimmed title is empty or longer than 200 bytes.
    BadTitle,
    /// Our domain does not make a valid wave id.
    BadWaveId(IdError),
}

/// A valid title: 1 to 200 bytes once trimmed.
pub open spec fn title_ok(title: Seq<char>) -> bool {
    trim(title).len() > 0 && utf8_len(trim(title)) <= 200
}

/// A new wave on our domain with id `w+` and 8 random bytes in hex, made by
/// `me` at `now`: its only participant and creator, ACL version 1,
/// translation off.
pub fn new_wave(domain: &str, me: &ParticipantId, title: &str, now_ms: u64) -> (r: Result<
    WaveMeta,
    CreateFault,
>)
    ensures
        match r {
            Ok(m) => {
                &&& title_ok(title@)
                &&& m.title@ == trim(title@)
                &&& m.participants@.len() == 1
                &&& m.participants@[0]@ == participant_text(me@)
                &&& m.created_by@ == participant_text(me@)
                &&& m.created_ms == now_ms && m.last_activity_ms == now_ms
                &&& m.acl_version == 1 && !m.translation_enabled
                &&& exists|raw: Seq<u8>|
                    raw.len() == 8 && (spec_domain_id(domain@, "w+"@ + hex_of(raw)) matches Ok(w)
                        && m.wave@ == domain_id_text(w))
            },
            Err(CreateFault::BadTitle) => !title_ok(title@),
            Err(CreateFault::BadWaveId(e)) => title_ok(title@) && exists|raw: Seq<u8>|
                raw.len() == 8 && spec_domain_id(domain@, "w+"@ + hex_of(raw)) == Err::<
                    (Seq<char>, Seq<char>),
                    IdFault,
                >(e@),
        },
{
    let t = trim_str(title);
    if t.as_str().is_empty() || t.as_str().len() > 200 {
        return Err(CreateFault::BadTitle);
    }
    let local = random_id("w+", 8);
    let wave = match WaveId::new(domain, local.as_str()) {
        Ok(w) => w,
        Err(e) => return Err(CreateFault::BadWaveId(e)),
    };
    let me_text = me.to_string();
    let mut participants: Vec<String> = Vec::new();
    participants.push(me.to_string());
    Ok(WaveMeta {
        wave: wave.to_string(),
        title: t,
        participants,
        created_by: me_text,
        created_ms: now_ms,
        last_activity_ms: now_ms,
        acl_version: 1,
        translation_enabled: false,
    })
}

/// Whether adding `added` needs an existing local account: it does when the
/// participant is on our domain (remote ones are vouched for by their own
/// server).
pub fn needs_local_account(added: &ParticipantId, our_domain: &str) -> (b: bool)
    ensures
        b == (added@.1 == our_domain@),
{
    str_eq(added.domain(), our_domain)
}

fn home_error(prefix: &str, home: &str) -> (e: ApiError)
    ensures
        e.0 == 403,
        e.1@ == prefix@ + home@ + ")"@,
{
    let mut msg = prefix.to_owned();
    msg.append(home);
    msg.append(")");
    ApiError(403, msg)
}

/// How adding `added` to `meta` by `me` on `our_domain` at `now` comes out:
/// `me` must be on the wave and the wave homed here (else 403 with the
/// reason); an absent participant is appended, the activity time set to
/// `now` and the ACL version bumped; the flag says whether it changed.
pub open spec fn add_outcome(
    meta: WaveMeta,
    me: (Seq<char>, Seq<char>),
    added: (Seq<char>, Seq<char>),
    our_domain: Seq<char>,
    now: u64,
    r: Result<(WaveMeta, bool), ApiError>,
) -> bool {
    match r {
        Ok((m, changed)) => {
            &&& on_wave(meta.participants@, participant_text(me))
            &&& home_of(meta.wave@) == our_domain
            &&& changed == !on_wave(meta.participants@, participant_text(added))
            &&& m.wave@ == meta.wave@ && m.title@ == meta.title@
            &&& m.created_by@ == meta.created_by@ && m.created_ms == meta.created_ms
            &&& m.translation_enabled == meta.translation_enabled
            &&& if changed {
                &&& string_views(m.participants@) == string_views(meta.participants@).push(
                    participant_text(added),
                )
                &&& m.last_activity_ms == now
                &&& m.acl_version == meta.acl_version + 1
            } else {
                &&& string_views(m.participants@) == string_views(meta.participants@)
                &&& m.last_activity_ms == meta.last_activity_ms
                &&& m.acl_version == meta.acl_version
            }
        },
        Err(e) => e.0 == 403 && if !on_wave(meta.participants@, participant_text(me)) {
            e.1@ == "not a participant"@
        } else {
            home_of(meta.wave@) != our_domain && e.1@
                == "membership is managed by the wave's home server ("@ + home_of(meta.wave@)
                + ")"@
        },
    }
}

proof fn lemma_on_wave_kept(a: Seq<String>, b: Seq<String>, who: Seq<char>)
    requires
        on_wave(a, who),
        a.len() <= b.len(),
        string_views(b).take(a.len() as int) == string_views(a),
    ensures
        on_wave(b, who),
{
    let i = choose|i: int| 0 <= i < a.len() && (#[trigger] a[i])@ == who;
    assert(string_views(b).take(a.len() as int)[i] == string_views(a)[i]);
    assert(b[i]@ == who);
}

/// Adding a participant who is already listed changes nothing. After a
/// successful add, the same member adding the same address again, at any
/// time, succeeds and reports no change (so nothing is announced): the
/// participants, the ACL version and the activity time stay as the first
/// add left them.
pub proof fn law_add_participant_twice(
    meta: WaveMeta,
    me: (Seq<char>, Seq<char>),
    added: (Seq<char>, Seq<char>),
    our_domain: Seq<char>,
    now1: u64,
    now2: u64,
    first: Result<(WaveMeta, bool), ApiError>,
    second: Result<(WaveMeta, bool), ApiError>,
)
    requires
        add_outcome(meta, me, added, our_domain, now1, first),
        match first {
            Ok((m1, _)) => add_outcome(m1, me, added, our_domain, now2, second),
            Err(_) => false,
        },
    ensures
        match first {
            Ok((m1, _)) => match second {
                Ok((m2, changed)) => {
                    &&& !changed
                    &&& string_views(m2.participants@) == string_views(m1.participants@)
                    &&& m2.acl_version == m1.acl_version
                    &&& m2.last_activity_ms == m1.last_activity_ms
                },
                Err(_) => false,
            },
            Err(_) => false,
        },
{
    match first {
        Ok((m1, changed1)) => {
            let a = meta.participants@;
            let b = m1.participants@;
            assert(string_views(a).len() == a.len());
            assert(string_views(b).len() == b.len());
            assert(b.len() == a.len() + (if changed1 { 1int } else { 0int }));
            assert(string_views(b).take(a.len() as int) =~= string_views(a));
            lemma_on_wave_kept(a, b, participant_text(me));
            if changed1 {
                assert(string_views(b)[a.len() as int] == participant_text(added));
                assert(b[a.len() as int]@ == participant_text(added));
            } else {
                lemma_on_wave_kept(a, b, participant_text(added));
            }
            assert(on_wave(b, participant_text(added)));
        },
        Err(_) => {},
    }
}

/// Adding `added` to a wave by `me` on home server `our_domain`: `me` must
/// be a participant and the wave homed here. An absent participant is
/// appended, the activity time set to `now` and the ACL version bumped; the
/// flag says whether anything changed.
pub fn add_participant_to(
    meta: WaveMeta,
    me: &ParticipantId,
    added: &ParticipantId,
    our_domain: &str,
    now_ms: u64,
) -> (r: Result<(WaveMeta, bool), ApiError>)
    requires
        meta.acl_version < u64::MAX,
    ensures
        add_outcome(meta, me@, added@, our_domain@, now_ms, r),
{
    let me_text = me.to_string();
    if !is_participant(&meta.participants, me_text.as_str()) {
        return Err(ApiError::forbidden("not a participant"));
    }
    let home = home_domain(meta.wave.as_str());
    if !str_eq(home.as_str(), our_domain) {
        return Err(home_error("membership is managed by the wave's home server (", home.as_str()));
    }
    let addr = added.to_string();
    if is_participant(&meta.participants, addr.as_str()) {
        assert(string_views(meta.participants@) == string_views(meta.participants@));
        return Ok((meta, false));
    }
    let mut m = meta;
    let ghost before = m.participants@;
    m.participants.push(addr);
    assert(string_views(m.participants@) =~= string_views(before).push(participant_text(added@)));
    m.last_activity_ms = now_ms;
    m.acl_version = m.acl_version + 1;
    Ok((m, true))
}

/// Setting a wave's translation opt-in by `me`: the same authority rules as
/// membership; a change flips the flag and bumps the ACL version.
pub fn set_translation_on(meta: WaveMeta, me: &ParticipantId, enabled: bool, our_domain: &str) -> (r:
    Result<(WaveMeta, bool), ApiError>)
    requires
        meta.acl_version < u64::MAX,
    ensures
        match r {
            Ok((m, changed)) => {
                &&& on_wave(meta.participants@, participant_text(me@))
                &&& home_of(meta.wave@) == our_domain@
                &&& changed == (meta.translation_enabled != enabled)
                &&& m.translation_enabled == enabled
                &&& m.wave@ == meta.wave@ && m.title@ == meta.title@
                &&& m.participants@ == meta.participants@
                &&& m.last_activity_ms == meta.last_activity_ms
                &&& m.acl_version == if changed {
                    meta.acl_version + 1
                } else {
                    meta.acl_version as int
                }
            },
            Err(e) => e.0 == 403 && if !on_wave(meta.participants@, participant_text(me@)) {
                e.1@ == "not a participant"@
            } else {
                home_of(meta.wave@) != our_domain@ && e.1@
                    == "translation policy is managed by the wave's home server ("@ + home_of(
                    meta.wave@,
                ) + ")"@
            },
        },
{
    let me_text = me.to_string();
    if !is_participant(&meta.participants, me_text.as_str()) {
        return Err(ApiError::forbidden("not a participant"));
    }
    let home = home_domain(meta.wave.as_str());
    if !str_eq(home.as_str(), our_domain) {
        return Err(
            home_error("translation policy is managed by the wave's home server (", home.as_str()),
        );
    }
    if meta.translation_enabled == enabled {
        return Ok((meta, false));
    }
    let mut m = meta;
    m.translation_enabled = enabled;
    m.acl_version = m.acl_version + 1;
    Ok((m, true))
}

/// The whole membership request, checked in order: the address must
/// parse (400), a local address must have an account here (400), the wave
/// must exist (404), then `add_participant_to`'s rules.
pub fn add_participant_step(
    participant: &str,
    our_domain: &str,
    local_account: bool,
    meta: Option<WaveMeta>,
    me: &ParticipantId,
    now_ms: u64,
) -> (r: Result<(WaveMeta, bool), ApiError>)
    requires
        meta matches Some(m) ==> m.acl_version < u64::MAX,
    ensures
        match crate::id::parse_participant(participant@) {
            Err(e) => r matches Err(x) && x.0 == 400 && x.1@ == "invalid participant: "@ + crate::id::id_error_text(e),
            Ok(a) => if a.1 == our_domain@ && !local_account {
                r matches Err(x) && x.0 == 400 && x.1@ == "no such account on this server"@
            } else {
                match meta {
                    None => r matches Err(x) && x.0 == 404 && x.1@ == "no such wave"@,
                    Some(m) => add_outcome(m, me@, a, our_domain@, now_ms, r),
                }
            },
        },
{
    let added = match ParticipantId::parse(participant) {
        Ok(p) => p,
        Err(e) => {
            let mut msg = "invalid participant: ".to_owned();
            let t = e.message();
            msg.append(t.as_str());
            return Err(ApiError::bad_request(msg.as_str()));
        },
    };
    if str_eq(added.domain(), our_domain) && !local_account {
        return Err(ApiError::bad_request("no such account on this server"));
    }
    match meta {
        None => Err(ApiError::with_status(404, "no such wave")),
        Some(m) => add_participant_to(m, me, &added, our_domain, now_ms),
    }
}

} // verus!
