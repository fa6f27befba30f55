//! Accounts and sessions: the session cookie, registration rules, and the
//! echo-protocol authentication handshake.

use vstd::prelude::*;
use crate::common::{decimal, decimal_string, random_id, trim, trim_chars, utf8_len};
use crate::hexcode::hex_of;
use crate::id::{spec_participant, result_view, IdError, IdFault, ParticipantId};
use crate::text::{chars_of, split_chars, split_on, str_eq, string_of};
use crate::wire::{channel_code, Channel, Envelope, envelope_bytes, decode_envelope};
use crate::common::{ApiError, BAD_REQUEST, CONFLICT, INTERNAL_SERVER_ERROR, UNAUTHORIZED};
use crate::id::{id_error_text, participant_text};
use crate::store::Account;
use crate::fields::{fields_bytes, decode_fields, law_fields_roundtrip, read_fields, put_varint_field, last_with_tag};
use crate::fedwire::u64_at;
use crate::protocol::{delim, text_at, read_text, put_text_field};
use vstd::utf8::encode_utf8;

verus! {

pub const SESSION_COOKIE: &'static str = "pw_session";
pub const SESSION_MAX_AGE_SECS: u64 = 2592000;

/// The authenticated participant of a request.
#[derive(Debug)]
pub struct CurrentUser(pub ParticipantId);

/// Registration or login credentials: the local part and a password.
#[derive(Debug)]
pub struct CredentialsRequest {
    pub name: String,
    pub password: String,
}

/// The participant a session belongs to.
#[derive(Debug)]
pub struct SessionResponse {
    pub participant: String,
}

// ---------------------------------------------------------------------------
// Cookies
// ---------------------------------------------------------------------------

/// The session id carried by one `name=value` cookie pair, if it is ours:
/// the pair is trimmed and split at its first `=`.
pub open spec fn session_in_pair(pair: Seq<char>) -> Option<Seq<char>> {
    let t = trim(pair);
    let pieces = split_on(t, '=');
    if pieces.len() >= 2 && pieces[0] == "pw_session"@ {
        Some(t.skip(pieces[0].len() + 1int))
    } else {
        None
    }
}

/// The first session id among cookie pairs.
pub open spec fn session_in_pairs(pairs: Seq<Seq<char>>) -> Option<Seq<char>>
    decreases pairs.len(),
{
    if pairs.len() == 0 {
        None
    } else {
        match session_in_pair(pairs[0]) {
            Some(v) => Some(v),
            None => session_in_pairs(pairs.drop_first()),
        }
    }
}

/// The first session id among `Cookie` header values, each split on `;`.
pub open spec fn session_in_headers(headers: Seq<Seq<char>>) -> Option<Seq<char>>
    decreases headers.len(),
{
    if headers.len() == 0 {
        None
    } else {
        match session_in_pairs(split_on(headers[0], ';')) {
            Some(v) => Some(v),
            None => session_in_headers(headers.drop_first()),
        }
    }
}

fn pair_session(pair: &[char]) -> (r: Option<String>)
    ensures
        match r {
            Some(v) => session_in_pair(pair@) == Some(v@),
            None => session_in_pair(pair@) is None,
        },
{
    let t = trim_chars(pair);
    let pieces = split_chars(t.as_slice(), '=');
    assert(pieces@.map_values(|x: Vec<char>| x@) == split_on(t@, '='));
    proof { crate::text::lemma_split_len_pos(t@, '='); }
    if pieces.len() < 2 {
        return None;
    }
    assert(pieces@.map_values(|x: Vec<char>| x@)[0] == pieces@[0]@);
    let key = string_of(pieces[0].as_slice());
    if !str_eq(key.as_str(), "pw_session") {
        return None;
    }
    let k = pieces[0].len();
    proof { lemma_first_piece_len(t@, '='); }
    assert(k < t.len());
    let value = string_of(&t.as_slice()[k + 1..t.len()]);
    assert(t@.subrange(k + 1, t@.len() as int) =~= t@.skip(k + 1));
    Some(value)
}

proof fn lemma_first_piece_len(s: Seq<char>, sep: char)
    requires
        split_on(s, sep).len() >= 2,
    ensures
        split_on(s, sep)[0].len() < s.len(),
        s.take(split_on(s, sep)[0].len() as int) == split_on(s, sep)[0],
    decreases s.len(),
{
    crate::text::lemma_split_len_pos(s, sep);
    if s.len() > 0 {
        let init = s.drop_last();
        crate::text::lemma_split_len_pos(init, sep);
        let si = split_on(init, sep);
        if s.last() == sep {
            if si.len() >= 2 {
                lemma_first_piece_len(init, sep);
                assert(s.take(si[0].len() as int) =~= init.take(si[0].len() as int));
            } else {
                lemma_split_single(init, sep);
                assert(si[0] == init);
                assert(s.take(init.len() as int) =~= init);
            }
        } else {
            lemma_first_piece_len(init, sep);
            assert(s.take(si[0].len() as int) =~= init.take(si[0].len() as int));
        }
    }
}

proof fn lemma_split_single(s: Seq<char>, sep: char)
    requires
        split_on(s, sep).len() == 1,
    ensures
        split_on(s, sep)[0] == s,
    decreases s.len(),
{
    if s.len() > 0 {
        let init = s.drop_last();
        crate::text::lemma_split_len_pos(init, sep);
        if s.last() != sep {
            lemma_split_single(init, sep);
            assert(init.push(s.last()) =~= s);
        }
    } else {
        assert(s =~= Seq::<char>::empty());
    }
}

/// The session id from the `Cookie` header values of a request.
pub fn session_id_from_cookies(headers: &Vec<String>) -> (r: Option<String>)
    ensures
        match r {
            Some(v) => session_in_headers(headers@.map_values(|h: String| h@)) == Some(v@),
            None => session_in_headers(headers@.map_values(|h: String| h@)) is None,
        },
{
    let ghost hs = headers@.map_values(|h: String| h@);
    let mut i: usize = 0;
    assert(hs.skip(0) =~= hs);
    while i < headers.len()
        invariant
            i <= headers.len(),
            hs == headers@.map_values(|h: String| h@),
            session_in_headers(hs) == session_in_headers(hs.skip(i as int)),
        decreases headers.len() - i,
    {
        let cs = chars_of(headers[i].as_str());
        let pairs = split_chars(cs.as_slice(), ';');
        let ghost ps = pairs@.map_values(|x: Vec<char>| x@);
        assert(ps == split_on(hs[i as int], ';'));
        let mut j: usize = 0;
        assert(ps.skip(0) =~= ps);
        while j < pairs.len()
            invariant
                j <= pairs.len(),
                i < headers.len(),
                hs == headers@.map_values(|h: String| h@),
                session_in_headers(hs) == session_in_headers(hs.skip(i as int)),
                ps == pairs@.map_values(|x: Vec<char>| x@),
                session_in_pairs(split_on(hs[i as int], ';')) == session_in_pairs(ps.skip(j as int)),
            decreases pairs.len() - j,
        {
            assert(ps.skip(j as int)[0] == pairs@[j as int]@);
            match pair_session(pairs[j].as_slice()) {
                Some(v) => {
                    assert(hs.skip(i as int)[0] == hs[i as int]);
                    return Some(v);
                },
                None => {},
            }
            assert(ps.skip(j as int).drop_first() =~= ps.skip(j + 1));
            j += 1;
        }
        assert(ps.skip(j as int) =~= Seq::<Seq<char>>::empty());
        assert(hs.skip(i as int)[0] == hs[i as int]);
        assert(hs.skip(i as int).drop_first() =~= hs.skip(i + 1));
        i += 1;
    }
    assert(hs.skip(i as int) =~= Seq::<Seq<char>>::empty());
    None
}

/// `pw_session=<sid>; HttpOnly; Path=/; SameSite=Lax; Max-Age=<max_age>`.
pub fn session_cookie(sid: &str, max_age: u64) -> (s: String)
    ensures
        s@ == "pw_session="@ + sid@ + "; HttpOnly; Path=/; SameSite=Lax; Max-Age="@ + decimal(
            max_age as nat,
        ),
{
    let mut s = "pw_session=".to_owned();
    s.append(sid);
    s.append("; HttpOnly; Path=/; SameSite=Lax; Max-Age=");
    let d = decimal_string(max_age);
    s.append(d.as_str());
    s
}

/// A fresh session id: the hex of 24 random bytes.
pub fn new_session_id() -> (s: String)
    ensures
        exists|raw: Seq<u8>| raw.len() == 24 && s@ == ""@ + hex_of(raw),
{
    random_id("", 24)
}

// ---------------------------------------------------------------------------
// Registration
// ---------------------------------------------------------------------------

/// Why a registration is refused.
#[derive(Debug)]
pub enum RegisterFault {
    /// The password has fewer than 8 bytes.
    ShortPassword,
    /// The name is not a valid local part.
    InvalidName(IdError),
}

/// A registration: a password of at least 8 bytes, then a valid local part
/// on our domain.
pub fn check_registration(name: &str, password: &str, domain: &str) -> (r: Result<
    ParticipantId,
    RegisterFault,
>)
    ensures
        match r {
            Ok(p) => utf8_len(password@) >= 8 && spec_participant(name@, domain@) == Ok::<_, IdFault>(p@),
            Err(RegisterFault::ShortPassword) => utf8_len(password@) < 8,
            Err(RegisterFault::InvalidName(e)) => utf8_len(password@) >= 8 && spec_participant(
                name@,
                domain@,
            ) == Err::<(Seq<char>, Seq<char>), _>(e@),
        },
{
    if password.len() < 8 {
        return Err(RegisterFault::ShortPassword);
    }
    match ParticipantId::new(name, domain) {
        Ok(p) => Ok(p),
        Err(e) => Err(RegisterFault::InvalidName(e)),
    }
}

// ---------------------------------------------------------------------------
// The echo protocol's session state machine
// ---------------------------------------------------------------------------

/// The server's state for the echo protocol: the shared dev credential.
#[derive(Debug)]
pub struct AppState {
    pub dev_token: String,
}

/// Why an authentication request was refused.
#[derive(Debug)]
pub enum AuthFault {
    InvalidParticipant(IdError),
    InvalidToken,
}

/// What the session does with one decoded frame.
#[derive(Debug, Clone, Copy, PartialEq, Eq)]
pub enum FrameAction {
    /// Authenticate with the control payload and answer on control.
    Authenticate,
    /// Echo the frame back unchanged.
    Echo,
    /// Answer on control that the session is not authenticated.
    RejectUnauthenticated,
    /// Ignore the frame.
    Ignore,
}

/// The session's decision for a frame on `channel`, given whether it has
/// authenticated.
pub open spec fn frame_action_of(channel: i32, authenticated: bool) -> FrameAction {
    if channel == channel_code(Channel::Control) {
        FrameAction::Authenticate
    } else if channel == channel_code(Channel::Echo) {
        if authenticated {
            FrameAction::Echo
        } else {
            FrameAction::RejectUnauthenticated
        }
    } else {
        FrameAction::Ignore
    }
}

pub fn frame_action(channel: i32, authenticated: bool) -> (a: FrameAction)
    ensures
        a == frame_action_of(channel, authenticated),
{
    match Channel::from_code(channel) {
        Some(Channel::Control) => FrameAction::Authenticate,
        Some(Channel::Echo) => if authenticated {
            FrameAction::Echo
        } else {
            FrameAction::RejectUnauthenticated
        },
        _ => FrameAction::Ignore,
    }
}

/// The echo protocol's control payloads (fields: `AuthRequest` has
/// `participant` 1 and `token` 2; `AuthResponse` has `ok` 1, `session_id`
/// 2 and `error` 3).
pub open spec fn auth_request_bytes(participant: Seq<char>, token: Seq<char>) -> Seq<u8> {
    fields_bytes(seq![delim(1, encode_utf8(participant)), delim(2, encode_utf8(token))])
}

/// An `AuthRequest` as (participant, token).
pub open spec fn decode_auth_request_spec(b: Seq<u8>) -> Option<(Seq<char>, Seq<char>)> {
    match decode_fields(b) {
        None => None,
        Some(fs) => match (text_at(fs, 1), text_at(fs, 2)) {
            (Some(p), Some(t)) => Some((p, t)),
            _ => None,
        },
    }
}

pub fn encode_auth_request(participant: &str, token: &str) -> (out: Vec<u8>)
    ensures
        out@ == auth_request_bytes(participant@, token@),
{
    let mut out: Vec<u8> = Vec::new();
    put_text_field(&mut out, 1, participant);
    put_text_field(&mut out, 2, token);
    proof {
        crate::protocol::lemma_two(delim(1, encode_utf8(participant@)), delim(2, encode_utf8(token@)));
    }
    out
}

pub fn decode_auth_request(b: &[u8]) -> (r: Option<(String, String)>)
    ensures
        match r {
            Some((p, t)) => decode_auth_request_spec(b@) == Some((p@, t@)),
            None => decode_auth_request_spec(b@) is None,
        },
{
    let fs = match read_fields(b) {
        Some(fs) => fs,
        None => return None,
    };
    match (read_text(&fs, 1), read_text(&fs, 2)) {
        (Some(p), Some(t)) => Some((p, t)),
        _ => None,
    }
}

/// Decoding an encoded authentication request gives it back.
pub proof fn law_auth_request_roundtrip(participant: Seq<char>, token: Seq<char>)
    requires
        auth_request_bytes(participant, token).len() < 0x1_0000_0000_0000_0000,
    ensures
        decode_auth_request_spec(auth_request_bytes(participant, token)) == Some((participant, token)),
{
    reveal_with_fuel(last_with_tag, 4);
    let fs = seq![delim(1, encode_utf8(participant)), delim(2, encode_utf8(token))];
    crate::protocol::lemma_two(delim(1, encode_utf8(participant)), delim(2, encode_utf8(token)));
    crate::protocol::lemma_all_ok(fs);
    law_fields_roundtrip(fs);
    assert(fs.drop_last() =~= seq![delim(1, encode_utf8(participant))]);
    crate::protocol::lemma_text_at(fs, 1, participant);
    crate::protocol::lemma_text_at(fs, 2, token);
}

/// The answer to an authentication request.
#[derive(Debug)]
pub struct AuthResponse {
    pub ok: bool,
    pub session_id: String,
    pub error: String,
}

pub open spec fn auth_response_bytes(ok: bool, session_id: Seq<char>, error: Seq<char>) -> Seq<u8> {
    fields_bytes(
        seq![
            (1u32, false, if ok { 1u64 } else { 0u64 }, Seq::<u8>::empty()),
            delim(2, encode_utf8(session_id)),
            delim(3, encode_utf8(error)),
        ],
    )
}

/// An `AuthResponse` as (ok, session id, error).
pub open spec fn decode_auth_response_spec(b: Seq<u8>) -> Option<(bool, Seq<char>, Seq<char>)> {
    match decode_fields(b) {
        None => None,
        Some(fs) => match (u64_at(fs, 1), text_at(fs, 2), text_at(fs, 3)) {
            (Some(ok), Some(sid), Some(err)) => Some((ok != 0, sid, err)),
            _ => None,
        },
    }
}

impl AuthResponse {
    pub fn encode(&self) -> (out: Vec<u8>)
        ensures
            out@ == auth_response_bytes(self.ok, self.session_id@, self.error@),
    {
        let mut out: Vec<u8> = Vec::new();
        put_varint_field(&mut out, 1, if self.ok { 1 } else { 0 });
        put_text_field(&mut out, 2, self.session_id.as_str());
        put_text_field(&mut out, 3, self.error.as_str());
        proof {
            crate::protocol::lemma_three(
                (1u32, false, if self.ok { 1u64 } else { 0u64 }, Seq::<u8>::empty()),
                delim(2, encode_utf8(self.session_id@)),
                delim(3, encode_utf8(self.error@)),
            );
        }
        out
    }

    pub fn decode(b: &[u8]) -> (r: Option<Self>)
        ensures
            match r {
                Some(m) => decode_auth_response_spec(b@) == Some((m.ok, m.session_id@, m.error@)),
                None => decode_auth_response_spec(b@) is None,
            },
    {
        let fs = match read_fields(b) {
            Some(fs) => fs,
            None => return None,
        };
        match (crate::fedwire::read_u64(&fs, 1), read_text(&fs, 2), read_text(&fs, 3)) {
            (Some(ok), Some(session_id), Some(error)) => Some(AuthResponse { ok: ok != 0, session_id, error }),
            _ => None,
        }
    }

    /// A refusal with its reason.
    pub fn reject(error: &str) -> (r: Self)
        ensures
            !r.ok,
            r.session_id@ == Seq::<char>::empty(),
            r.error@ == error@,
    {
        AuthResponse { ok: false, session_id: String::new(), error: error.to_owned() }
    }
}

pub open spec fn opt_text(o: Option<String>) -> Option<Seq<char>> {
    match o {
        Some(t) => Some(t@),
        None => None,
    }
}

/// How an authentication request is answered (`ok`, `session_id`,
/// `error`), and the session id the connection keeps: a malformed request,
/// a participant that does not parse, or a wrong token is refused with the
/// reason; otherwise a fresh id of 16 random bytes in hex.
pub open spec fn auth_answered(
    dev_token: Seq<char>,
    payload: Seq<u8>,
    ok: bool,
    session_id: Seq<char>,
    error: Seq<char>,
    kept: Option<Seq<char>>,
) -> bool {
    match decode_auth_request_spec(payload) {
        None => !ok && session_id.len() == 0 && error == "malformed auth request"@ && kept is None,
        Some((p, t)) => match crate::id::parse_participant(p) {
            Err(e) => !ok && session_id.len() == 0 && error == "invalid participant: "@ + id_error_text(e)
                && kept is None,
            Ok(_) => if t != dev_token {
                !ok && session_id.len() == 0 && error == "invalid token"@ && kept is None
            } else {
                &&& ok
                &&& error.len() == 0
                &&& kept == Some(session_id)
                &&& exists|raw: Seq<u8>| raw.len() == 16 && session_id == ""@ + hex_of(raw)
            },
        },
    }
}

impl AppState {
    pub fn new(dev_token: String) -> (s: Self)
        ensures
            s.dev_token@ == dev_token@,
    {
        AppState { dev_token }
    }

    /// Checks an authentication request: the participant must parse, then
    /// the token must equal the dev credential.
    pub fn check_auth(&self, participant: &str, token: &str) -> (r: Result<ParticipantId, AuthFault>)
        ensures
            match r {
                Ok(p) => crate::id::parse_participant(participant@) == Ok::<_, IdFault>(p@)
                    && token@ == self.dev_token@,
                Err(AuthFault::InvalidParticipant(e)) => crate::id::parse_participant(participant@)
                    == Err::<(Seq<char>, Seq<char>), _>(e@),
                Err(AuthFault::InvalidToken) => crate::id::parse_participant(participant@) is Ok
                    && token@ != self.dev_token@,
            },
    {
        let p = match ParticipantId::parse(participant) {
            Ok(p) => p,
            Err(e) => return Err(AuthFault::InvalidParticipant(e)),
        };
        if !str_eq(token, self.dev_token.as_str()) {
            return Err(AuthFault::InvalidToken);
        }
        Ok(p)
    }

    /// Authenticates and mints a session id (hex of 16 random bytes).
    pub fn authenticate(&self, participant: &str, token: &str) -> (r: Result<
        (ParticipantId, String),
        AuthFault,
    >)
        ensures
            match r {
                Ok((p, sid)) => crate::id::parse_participant(participant@) == Ok::<_, IdFault>(p@)
                    && token@ == self.dev_token@ && exists|raw: Seq<u8>|
                    raw.len() == 16 && sid@ == ""@ + hex_of(raw),
                Err(AuthFault::InvalidParticipant(e)) => crate::id::parse_participant(participant@)
                    == Err::<(Seq<char>, Seq<char>), _>(e@),
                Err(AuthFault::InvalidToken) => crate::id::parse_participant(participant@) is Ok
                    && token@ != self.dev_token@,
            },
    {
        let p = match self.check_auth(participant, token) {
            Ok(p) => p,
            Err(e) => return Err(e),
        };
        Ok((p, random_id("", 16)))
    }

    /// The answer to a control frame's payload: a malformed request, a
    /// participant that does not parse, or a wrong token is refused with
    /// the reason; otherwise the session is authenticated under a fresh id,
    /// also handed back for the session to keep.
    pub fn answer_auth(&self, payload: &[u8]) -> (r: (AuthResponse, Option<String>))
        ensures
            auth_answered(self.dev_token@, payload@, r.0.ok, r.0.session_id@, r.0.error@, opt_text(r.1)),
    {
        let (participant, token) = match decode_auth_request(payload) {
            Some(req) => req,
            None => return (AuthResponse::reject("malformed auth request"), None),
        };
        match self.authenticate(participant.as_str(), token.as_str()) {
            Ok((_, sid)) => {
                let kept = sid.as_str().to_owned();
                (AuthResponse { ok: true, session_id: sid, error: String::new() }, Some(kept))
            },
            Err(AuthFault::InvalidParticipant(e)) => {
                let mut m = "invalid participant: ".to_owned();
                let t = e.message();
                m.append(t.as_str());
                (AuthResponse::reject(m.as_str()), None)
            },
            Err(AuthFault::InvalidToken) => (AuthResponse::reject("invalid token"), None),
        }
    }
}

// ---------------------------------------------------------------------------
// Passwords
// ---------------------------------------------------------------------------

/// Whether a PHC string parses as a password hash (`PasswordHash::new`).
pub uninterp spec fn phc_valid(phc: Seq<char>) -> bool;

/// Whether argon2 verification accepts `password` against the PHC string
/// `phc` (`verify_password` recomputes the hash with the string's salt and
/// parameters and compares).
pub uninterp spec fn argon2_accepts(password: Seq<u8>, phc: Seq<char>) -> bool;

/// `SaltString::generate(&mut OsRng)` then `Argon2::default().hash_password`,
/// as a PHC string. The salt is random, so nothing fixes the string; what
/// holds of every outcome is that it parses and verifies the password it
/// was made from.
#[verifier::external_body]
fn argon2_hash(password: &[u8]) -> (r: Result<String, String>)
    ensures
        r matches Ok(h) ==> phc_valid(h@) && argon2_accepts(password@, h@),
{
    let salt = argon2::password_hash::SaltString::generate(&mut argon2::password_hash::rand_core::OsRng);
    let hasher = argon2::Argon2::default();
    match argon2::password_hash::PasswordHasher::hash_password(&hasher, password, &salt) {
        Ok(h) => Ok(h.to_string()),
        Err(e) => Err(e.to_string()),
    }
}

/// `PasswordHash::new(phc)` then `Argon2::default().verify_password`: an
/// error when the PHC string does not parse, else whether it verifies.
#[verifier::external_body]
fn argon2_verify(password: &[u8], phc: &str) -> (r: Result<bool, String>)
    ensures
        match r {
            Ok(b) => phc_valid(phc@) && b == argon2_accepts(password@, phc@),
            Err(_) => !phc_valid(phc@),
        },
{
    match argon2::password_hash::PasswordHash::new(phc) {
        Err(e) => Err(e.to_string()),
        Ok(parsed) => Ok(argon2::password_hash::PasswordVerifier::verify_password(
            &argon2::Argon2::default(),
            password,
            &parsed,
        ).is_ok()),
    }
}

/// The stored hash of a new password; a hashing failure is an internal
/// error with its message.
pub fn hash_password(password: &str) -> (r: Result<String, ApiError>)
    ensures
        match r {
            Ok(h) => phc_valid(h@) && argon2_accepts(vstd::utf8::encode_utf8(password@), h@),
            Err(e) => e.0 == INTERNAL_SERVER_ERROR,
        },
{
    match argon2_hash(password.as_bytes()) {
        Ok(h) => Ok(h),
        Err(m) => Err(ApiError(INTERNAL_SERVER_ERROR, m)),
    }
}

impl RegisterFault {
    /// The refusal sent for a registration.
    pub fn to_api_error(&self) -> (e: ApiError)
        ensures
            e.0 == BAD_REQUEST,
            e.1@ == match self {
                RegisterFault::ShortPassword => "password must be at least 8 characters"@,
                RegisterFault::InvalidName(err) => "invalid name: "@ + id_error_text(err@),
            },
    {
        match self {
            RegisterFault::ShortPassword => ApiError::bad_request("password must be at least 8 characters"),
            RegisterFault::InvalidName(err) => {
                let mut m = "invalid name: ".to_owned();
                let t = err.message();
                m.append(t.as_str());
                ApiError(BAD_REQUEST, m)
            },
        }
    }
}

/// The account a registration creates.
pub fn new_account(participant: &ParticipantId, password_hash: String, now_ms: u64) -> (a: Account)
    ensures
        a.participant@ == participant_text(participant@),
        a.password_hash@ == password_hash@,
        a.created_ms == now_ms,
{
    Account { participant: participant.to_string(), password_hash, created_ms: now_ms }
}

/// A registration of a taken name is refused.
pub fn registration_result(created: bool) -> (r: Result<(), ApiError>)
    ensures
        created ==> r is Ok,
        !created ==> (r matches Err(e) && e.0 == CONFLICT && e.1@ == "name already taken"@),
{
    if created {
        Ok(())
    } else {
        Err(ApiError::with_status(CONFLICT, "name already taken"))
    }
}

/// A login: the name must make a participant here with an account whose
/// hash verifies the password; every refusal reads `invalid credentials`,
/// but a stored hash that does not parse is an internal error.
pub fn check_login(name: &str, domain: &str, account: Option<&Account>, password: &str) -> (r: Result<
    ParticipantId,
    ApiError,
>)
    ensures
        match spec_participant(name@, domain@) {
            Err(_) => r matches Err(e) && e.0 == UNAUTHORIZED && e.1@ == "invalid credentials"@,
            Ok(p) => match account {
                None => r matches Err(e) && e.0 == UNAUTHORIZED && e.1@ == "invalid credentials"@,
                Some(a) => if !phc_valid(a.password_hash@) {
                    r matches Err(e) && e.0 == INTERNAL_SERVER_ERROR
                } else if !argon2_accepts(vstd::utf8::encode_utf8(password@), a.password_hash@) {
                    r matches Err(e) && e.0 == UNAUTHORIZED && e.1@ == "invalid credentials"@
                } else {
                    r matches Ok(q) && q@ == p
                },
            },
        },
{
    let p = match ParticipantId::new(name, domain) {
        Ok(p) => p,
        Err(_) => return Err(ApiError::with_status(UNAUTHORIZED, "invalid credentials")),
    };
    let a = match account {
        Some(a) => a,
        None => return Err(ApiError::with_status(UNAUTHORIZED, "invalid credentials")),
    };
    match argon2_verify(password.as_bytes(), a.password_hash.as_str()) {
        Err(m) => Err(ApiError(INTERNAL_SERVER_ERROR, m)),
        Ok(false) => Err(ApiError::with_status(UNAUTHORIZED, "invalid credentials")),
        Ok(true) => Ok(p),
    }
}


/// The control frame that answers an authentication request, with the
/// session id the connection keeps.
pub open spec fn auth_reply(dev_token: Seq<char>, payload: Seq<u8>, reply: Seq<u8>, kept: Option<Seq<char>>) -> bool {
    exists|ok: bool, sid: Seq<char>, err: Seq<char>|
        #[trigger] auth_answered(dev_token, payload, ok, sid, err, kept) && reply == envelope_bytes(
            channel_code(Channel::Control),
            auth_response_bytes(ok, sid, err),
        )
}

/// A connection's state in the echo protocol: its session id once it has
/// authenticated.
#[derive(Debug)]
pub struct EchoSession {
    pub session_id: Option<String>,
}

/// What the connection does after a frame.
#[derive(Debug)]
pub enum EchoStep {
    /// The frame is not an envelope: close the connection.
    Close,
    /// Send this frame back.
    Reply(Vec<u8>),
    /// Send nothing.
    Nothing,
}

impl EchoSession {
    pub fn new() -> (s: Self)
        ensures
            s.session_id is None,
    {
        EchoSession { session_id: None }
    }

    /// Handles one binary frame: control frames (re)authenticate, keeping
    /// the new session id or none; echo frames come back re-encoded once
    /// authenticated and are refused on control before; other channels are
    /// ignored; a frame that is not an envelope closes the connection.
    pub fn step(&mut self, state: &AppState, frame: &[u8]) -> (r: EchoStep)
        ensures
            decode_envelope(frame@) is None ==> r is Close && final(self).session_id == old(self).session_id,
            decode_envelope(frame@) matches Some((ch, payload)) ==> (frame_action_of(ch, old(self).session_id is Some)
                == FrameAction::Authenticate ==> (r matches EchoStep::Reply(b) && auth_reply(
                state.dev_token@,
                payload,
                b@,
                opt_text(final(self).session_id),
            ))),
            decode_envelope(frame@) matches Some((ch, payload)) ==> (frame_action_of(ch, old(self).session_id is Some)
                == FrameAction::Echo ==> (r matches EchoStep::Reply(b) && b@ == envelope_bytes(ch, payload)
                && final(self).session_id == old(self).session_id)),
            decode_envelope(frame@) matches Some((ch, payload)) ==> (frame_action_of(ch, old(self).session_id is Some)
                == FrameAction::RejectUnauthenticated ==> (r matches EchoStep::Reply(b) && b@ == envelope_bytes(
                channel_code(Channel::Control),
                auth_response_bytes(false, Seq::empty(), "unauthenticated"@),
            ) && final(self).session_id == old(self).session_id)),
            decode_envelope(frame@) matches Some((ch, payload)) ==> (frame_action_of(ch, old(self).session_id is Some)
                == FrameAction::Ignore ==> (r is Nothing && final(self).session_id == old(self).session_id)),
    {
        let env = match Envelope::decode_frame(frame) {
            Ok(e) => e,
            Err(_) => return EchoStep::Close,
        };
        match frame_action(env.channel, self.session_id.is_some()) {
            FrameAction::Authenticate => {
                let (resp, kept) = state.answer_auth(env.payload.as_slice());
                self.session_id = kept;
                let reply = Envelope::control(resp.encode());
                let b = reply.encode_frame();
                proof {
                    assert(auth_answered(
                        state.dev_token@,
                        env.payload@,
                        resp.ok,
                        resp.session_id@,
                        resp.error@,
                        opt_text(self.session_id),
                    ));
                    assert(auth_reply(state.dev_token@, env.payload@, b@, opt_text(self.session_id)));
                }
                EchoStep::Reply(b)
            },
            FrameAction::Echo => EchoStep::Reply(env.encode_frame()),
            FrameAction::RejectUnauthenticated => {
                let resp = AuthResponse::reject("unauthenticated");
                let reply = Envelope::control(resp.encode());
                EchoStep::Reply(reply.encode_frame())
            },
            FrameAction::Ignore => EchoStep::Nothing,
        }
    }
}

} // verus!
