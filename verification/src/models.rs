//! The inference model pool: users register Ollama-compatible endpoints
//! they host, each with a serving scope; the auto-router draws on the pool.

use vstd::prelude::*;
use crate::common::{ApiError, utf8_len, has_prefix, starts_with, trim, trim_str, random_id};
use crate::hexcode::hex_of;
use crate::text::{chars_of, split_chars, split_on, str_eq, string_of};

verus! {

/// Hard cap of pool models per user.
pub const MAX_PER_USER: usize = 10;

/// A pool model registered by a user.
#[derive(Debug, Clone)]
pub struct UserModel {
    pub id: String,
    pub owner: String,
    pub label: String,
    pub base: String,
    pub model: String,
    /// `private`, `wave` or `federation`.
    pub scope: String,
    pub enabled: bool,
    pub created_ms: u64,
}

/// A pool model as shown to a user.
#[derive(Debug)]
pub struct ModelView {
    pub id: String,
    pub owner: String,
    pub owner_name: String,
    pub label: String,
    pub base: String,
    pub model: String,
    pub scope: String,
    pub enabled: bool,
    /// The caller's own entry.
    pub mine: bool,
}

/// A request to add or edit a pool model.
#[derive(Debug)]
pub struct ModelRequest {
    /// Empty for a new entry.
    pub id: String,
    pub label: String,
    pub base: String,
    pub model: String,
    pub scope: String,
    pub enabled: bool,
}

/// A request to probe an endpoint before saving it.
#[derive(Debug)]
pub struct TestRequest {
    pub base: String,
    pub model: String,
}

/// The default of `ModelRequest::enabled`.
pub fn default_true() -> (b: bool)
    ensures
        b,
{
    true
}

/// The local part of an owner address (all of it when there is no `@`).
pub open spec fn owner_local_of(owner: Seq<char>) -> Seq<char> {
    split_on(owner, '@')[0]
}

/// The local part of an owner address.
pub fn owner_local(owner: &str) -> (r: String)
    ensures
        r@ == owner_local_of(owner@),
{
    let cs = chars_of(owner);
    let parts = split_chars(cs.as_slice(), '@');
    proof { crate::text::lemma_split_len_pos(owner@, '@'); }
    assert(parts@.map_values(|x: Vec<char>| x@)[0] == parts@[0]@);
    string_of(parts[0].as_slice())
}

/// A pool model's view for the user `me`.
pub fn view(m: UserModel, me: &str) -> (v: ModelView)
    ensures
        v.id@ == m.id@,
        v.owner@ == m.owner@,
        v.owner_name@ == owner_local_of(m.owner@),
        v.label@ == m.label@,
        v.base@ == m.base@,
        v.model@ == m.model@,
        v.scope@ == m.scope@,
        v.enabled == m.enabled,
        v.mine == (m.owner@ == me@),
{
    let owner_name = owner_local(m.owner.as_str());
    let mine = str_eq(m.owner.as_str(), me);
    ModelView {
        owner_name,
        mine,
        id: m.id,
        owner: m.owner,
        label: m.label,
        base: m.base,
        model: m.model,
        scope: m.scope,
        enabled: m.enabled,
    }
}

/// A scope others can draw on.
pub open spec fn shared_scope(scope: Seq<char>) -> bool {
    scope == "wave"@ || scope == "federation"@
}

/// One of the three scopes.
pub open spec fn known_scope(scope: Seq<char>) -> bool {
    scope == "private"@ || scope == "wave"@ || scope == "federation"@
}

fn is_shared_scope(scope: &str) -> (b: bool)
    ensures
        b == shared_scope(scope@),
{
    str_eq(scope, "wave") || str_eq(scope, "federation")
}

/// Why a model request is refused, if it is.
pub open spec fn model_request_fault(req: ModelRequest) -> Option<Seq<char>> {
    let base = trim(req.base@);
    if !(has_prefix(base, "http://"@) || has_prefix(base, "https://"@)) {
        Some("base must be an http(s) URL"@)
    } else if trim(req.model@).len() == 0 || utf8_len(req.model@) > 200 {
        Some("model tag required"@)
    } else if utf8_len(req.label@) > 100 {
        Some("label too long"@)
    } else if !known_scope(req.scope@) {
        Some("scope must be private, wave or federation"@)
    } else {
        None
    }
}

/// Checks a model request: http(s) base, a model tag of at most 200 bytes,
/// a label of at most 100 bytes, a known scope.
pub fn validate(req: &ModelRequest) -> (r: Result<(), ApiError>)
    ensures
        match r {
            Ok(_) => model_request_fault(*req) is None,
            Err(e) => e.0 == 400 && model_request_fault(*req) == Some(e.1@),
        },
{
    let base = trim_str(req.base.as_str());
    if !(starts_with(base.as_str(), "http://") || starts_with(base.as_str(), "https://")) {
        return Err(ApiError::bad_request("base must be an http(s) URL"));
    }
    let model = trim_str(req.model.as_str());
    if model.as_str().is_empty() || req.model.as_str().len() > 200 {
        return Err(ApiError::bad_request("model tag required"));
    }
    if req.label.as_str().len() > 100 {
        return Err(ApiError::bad_request("label too long"));
    }
    if !(str_eq(req.scope.as_str(), "private") || str_eq(req.scope.as_str(), "wave") || str_eq(
        req.scope.as_str(),
        "federation",
    )) {
        return Err(ApiError::bad_request("scope must be private, wave or federation"));
    }
    Ok(())
}

/// `list_models`' split: the caller's own entries, and the enabled entries
/// others shared to a wave or the federation.
pub open spec fn is_mine(m: UserModel, me: Seq<char>) -> bool {
    m.owner@ == me
}

pub open spec fn in_pool(m: UserModel, me: Seq<char>) -> bool {
    m.owner@ != me && m.enabled && shared_scope(m.scope@)
}

/// Splits all pool models into the caller's own and the visible pool,
/// keeping their order.
pub fn partition_models(all: Vec<UserModel>, me: &str) -> (r: (Vec<UserModel>, Vec<UserModel>))
    ensures
        r.0@ == all@.filter(|m: UserModel| is_mine(m, me@)),
        r.1@ == all@.filter(|m: UserModel| in_pool(m, me@)),
{
    let mut mine: Vec<UserModel> = Vec::new();
    let mut pool: Vec<UserModel> = Vec::new();
    let ghost a = all@;
    let ghost p1 = |m: UserModel| is_mine(m, me@);
    let ghost p2 = |m: UserModel| in_pool(m, me@);
    let n = all.len();
    let mut rest = all;
    let mut k: usize = 0;
    assert(a.take(0) =~= Seq::<UserModel>::empty());
    assert(a.skip(0) =~= a);
    proof { reveal_with_fuel(Seq::<UserModel>::filter, 1); }
    while rest.len() > 0
        invariant
            k <= a.len(),
            a.len() == n,
            rest@ == a.skip(k as int),
            mine@ == a.take(k as int).filter(p1),
            pool@ == a.take(k as int).filter(p2),
            p1 == (|m: UserModel| is_mine(m, me@)),
            p2 == (|m: UserModel| in_pool(m, me@)),
        decreases rest.len(),
    {
        assert(a.skip(k as int).len() == a.len() - k);
        let m = rest.remove(0);
        assert(m == a[k as int]);
        assert(a.take(k + 1).drop_last() =~= a.take(k as int));
        assert(a.take(k + 1).last() == m);
        let mine_flag = str_eq(m.owner.as_str(), me);
        let shared = is_shared_scope(m.scope.as_str());
        assert(p1(m) == mine_flag);
        assert(p2(m) == (!mine_flag && m.enabled && shared));
        let ghost gm = m;
        proof { reveal_with_fuel(Seq::<UserModel>::filter, 1); }
        let ghost t1 = a.take(k as int).filter(p1);
        let ghost t2 = a.take(k as int).filter(p2);
        assert(a.take(k + 1).filter(p1) == (if p1(gm) { t1.push(gm) } else { t1 }));
        assert(a.take(k + 1).filter(p2) == (if p2(gm) { t2.push(gm) } else { t2 }));
        if mine_flag {
            mine.push(m);
        } else if m.enabled && shared {
            pool.push(m);
        }
        assert(a.skip(k as int).remove(0) =~= a.skip(k + 1));
        k += 1;
    }
    assert(a.skip(k as int).len() == 0);
    assert(a.take(a.len() as int) =~= a);
    (mine, pool)
}

/// Deciding a model save: a new entry (empty id) while the caller owns
/// fewer than the cap gets a fresh `m+` id and `now`; an edit must name an
/// existing entry the caller owns and keeps its id and creation time.
pub fn model_to_save(
    req: ModelRequest,
    me: &str,
    existing: Option<UserModel>,
    owned_count: usize,
    now_ms: u64,
) -> (r: Result<UserModel, ApiError>)
    ensures
        match r {
            Ok(m) => {
                &&& m.owner@ == me@
                &&& m.base@ == trim_end_slashes_of(trim(req.base@))
                &&& m.label@ == trim(req.label@)
                &&& m.model@ == trim(req.model@)
                &&& m.scope@ == req.scope@
                &&& m.enabled == req.enabled
                &&& if req.id@.len() == 0 {
                    owned_count < MAX_PER_USER && m.created_ms == now_ms && exists|raw: Seq<u8>|
                        raw.len() == 6 && m.id@ == "m+"@ + hex_of(raw)
                } else {
                    existing matches Some(x) && x.owner@ == me@ && m.id@ == x.id@
                        && m.created_ms == x.created_ms
                }
            },
            Err(e) => if req.id@.len() == 0 {
                owned_count >= MAX_PER_USER && e.0 == 400
            } else {
                match existing {
                    None => e.0 == 400 && e.1@ == "no such model"@,
                    Some(x) => x.owner@ != me@ && e.0 == 403 && e.1@ == "not your model"@,
                }
            },
        },
{
    let (id, created_ms) = if req.id.as_str().is_empty() {
        if owned_count >= MAX_PER_USER {
            return Err(ApiError::bad_request("at most 10 models per user"));
        }
        (random_id("m+", 6), now_ms)
    } else {
        match existing {
            None => return Err(ApiError::bad_request("no such model")),
            Some(x) => {
                if !str_eq(x.owner.as_str(), me) {
                    return Err(ApiError::forbidden("not your model"));
                }
                (x.id, x.created_ms)
            },
        }
    };
    let base = trim_str(req.base.as_str());
    let base = trim_end_slashes(base.as_str());
    Ok(UserModel {
        id,
        owner: me.to_owned(),
        label: trim_str(req.label.as_str()),
        base,
        model: trim_str(req.model.as_str()),
        scope: req.scope,
        enabled: req.enabled,
        created_ms,
    })
}

/// Without trailing `/` characters (`str::trim_end_matches('/')`).
pub open spec fn trim_end_slashes_of(s: Seq<char>) -> Seq<char>
    decreases s.len(),
{
    if s.len() > 0 && s.last() == '/' {
        trim_end_slashes_of(s.drop_last())
    } else {
        s
    }
}

pub fn trim_end_slashes(s: &str) -> (r: String)
    ensures
        r@ == trim_end_slashes_of(s@),
{
    let cs = chars_of(s);
    let mut n = cs.len();
    assert(cs@.take(n as int) =~= cs@);
    while n > 0 && cs[n - 1] == '/'
        invariant
            n <= cs.len(),
            trim_end_slashes_of(s@) == trim_end_slashes_of(cs@.take(n as int)),
            cs@ == s@,
        decreases n,
    {
        assert(cs@.take(n as int).drop_last() =~= cs@.take(n - 1));
        n -= 1;
    }
    string_of(&cs.as_slice()[0..n])
}

} // verus!
