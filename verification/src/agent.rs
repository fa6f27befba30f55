//! The wave agent: a virtual participant `assistant@domain` that answers
//! questions on a wave. This module holds the provider configuration, the
//! model pool and the auto-router, the grounding context an answer is asked
//! with, and the decisions of the @mention worker.

use vstd::prelude::*;
use crate::common::{ApiError, BAD_REQUEST, utf8_len, trim, trim_str, decimal, decimal_string, random_id};
use crate::hexcode::hex_of;
use crate::id::{ParticipantId, participant_text};
use crate::models::{UserModel, owner_local, owner_local_of, shared_scope, trim_end_slashes, trim_end_slashes_of};
use crate::search::SearchHit;
use crate::store::WaveMeta;
use crate::limits::{RateLimiter, limit_after, limit_allows};
use crate::text::{
    chars_of, contains_str, has_substring, push_char, split_chars, split_on, str_eq, string_of, string_views,
    first_where, lemma_first_where, lemma_first_where_at, lemma_first_where_none,
};

verus! {

/// Local part of the agent's address (`assistant@domain`).
pub const AGENT_LOCAL: &'static str = "assistant";

/// How many of the latest blips go into an answer's context.
pub const RECENT_BLIPS: usize = 12;

/// How many search hits go into an answer's context.
pub const RAG_HITS: usize = 4;

/// The longest prompt accepted, in bytes.
pub const MAX_PROMPT_BYTES: usize = 4000;

/// How long a mention stays answerable, in milliseconds.
pub const MENTION_FRESH_MS: u64 = 600000;

// ---------------------------------------------------------------------------
// Providers
// ---------------------------------------------------------------------------

/// Which service answers.
#[derive(Debug, Clone, Copy, PartialEq, Eq, Structural)]
pub enum ProviderKind {
    /// A hosted Gemini model; needs an API key.
    Gemini,
    /// A self-hosted Ollama server; plaintext HTTP on its base URL.
    Ollama,
}

/// A configured inference provider. For Gemini the second field is the API
/// key, for Ollama the server's base URL.
#[derive(Debug)]
pub struct Provider {
    pub kind: ProviderKind,
    pub endpoint: String,
    pub model: String,
}

impl View for Provider {
    type V = (ProviderKind, Seq<char>, Seq<char>);

    open spec fn view(&self) -> (ProviderKind, Seq<char>, Seq<char>) {
        (self.kind, self.endpoint@, self.model@)
    }
}

/// The model name reported for provenance: self-hosted models are marked.
pub open spec fn provider_model(p: (ProviderKind, Seq<char>, Seq<char>)) -> Seq<char> {
    match p.0 {
        ProviderKind::Ollama => "ollama/"@ + p.2,
        ProviderKind::Gemini => p.2,
    }
}

/// An Ollama provider as `ollama(base, model)` configures it.
pub open spec fn ollama_view(base: Seq<char>, model: Seq<char>) -> (ProviderKind, Seq<char>, Seq<char>) {
    (ProviderKind::Ollama, trim_end_slashes_of(base), model)
}

/// Something that answers prompts under a model name.
pub trait InferenceProvider {
    fn model(&self) -> String;
}

impl Provider {
    /// A self-hosted Ollama server at `base` (trailing slashes dropped).
    pub fn ollama(base: &str, model: &str) -> (p: Self)
        ensures
            p@ == ollama_view(base@, model@),
    {
        Provider { kind: ProviderKind::Ollama, endpoint: trim_end_slashes(base), model: model.to_owned() }
    }

    /// A hosted Gemini model reached with `key`.
    pub fn gemini(key: &str, model: &str) -> (p: Self)
        ensures
            p@ == (ProviderKind::Gemini, key@, model@),
    {
        Provider { kind: ProviderKind::Gemini, endpoint: key.to_owned(), model: model.to_owned() }
    }

    /// A copy of this provider.
    pub fn copy(&self) -> (p: Self)
        ensures
            p@ == self@,
    {
        Provider { kind: self.kind, endpoint: self.endpoint.as_str().to_owned(), model: self.model.as_str().to_owned() }
    }
}

impl InferenceProvider for Provider {
    fn model(&self) -> (m: String)
        ensures
            m@ == provider_model(self@),
    {
        match self.kind {
            ProviderKind::Ollama => {
                let mut m = "ollama/".to_owned();
                m.append(self.model.as_str());
                m
            },
            ProviderKind::Gemini => self.model.as_str().to_owned(),
        }
    }
}

pub open spec fn provider_views(p: Option<Provider>) -> Option<(ProviderKind, Seq<char>, Seq<char>)> {
    match p {
        Some(q) => Some(q@),
        None => None,
    }
}

/// This node's own inference provider, if one is configured.
#[derive(Debug)]
pub struct InferenceHub {
    provider: Option<Provider>,
}

impl InferenceHub {
    /// The configured provider.
    pub closed spec fn current(&self) -> Option<(ProviderKind, Seq<char>, Seq<char>)> {
        provider_views(self.provider)
    }

    /// A hub with no provider.
    pub fn new() -> (h: Self)
        ensures
            h.current() is None,
    {
        InferenceHub { provider: None }
    }

    /// Replaces the provider.
    pub fn set(&mut self, p: Provider)
        ensures
            final(self).current() == Some(p@),
    {
        self.provider = Some(p);
    }

    /// The provider, if any.
    pub fn get(&self) -> (r: Option<Provider>)
        ensures
            provider_views(r) == self.current(),
    {
        match &self.provider {
            Some(p) => Some(p.copy()),
            None => None,
        }
    }

    /// The provider's model name, if any.
    pub fn model(&self) -> (r: Option<String>)
        ensures
            match self.current() {
                Some(p) => r matches Some(m) && m@ == provider_model(p),
                None => r is None,
            },
    {
        match &self.provider {
            Some(p) => Some(p.model()),
            None => None,
        }
    }

    /// Whether a provider is configured.
    pub fn available(&self) -> (b: bool)
        ensures
            b == self.current() is Some,
    {
        self.provider.is_some()
    }
}

// ---------------------------------------------------------------------------
// Inference calls
// ---------------------------------------------------------------------------

/// What the hosted model is told before the context and the question.
pub const GEMINI_PREAMBLE: &'static str = "You are the assistant participant in a ProtoWave collaborative wave. Answer the question using the CONTEXT when relevant, and cite which source you used inline. Be concise and conversational \u{2014} your reply is posted as a message everyone on the wave will read.";

/// What a self-hosted model is told before the context and the question.
pub const OLLAMA_PREAMBLE: &'static str = "You are the assistant participant in a ProtoWave collaborative wave. Answer using the CONTEXT when relevant and cite the source inline. Be concise \u{2014} your reply is posted as a message for everyone on the wave.";

/// The full prompt a provider is sent: its preamble, the context, the question.
pub open spec fn prompt_text_of(kind: ProviderKind, prompt: Seq<char>, context: Seq<char>) -> Seq<char> {
    let preamble = match kind {
        ProviderKind::Gemini => GEMINI_PREAMBLE@,
        ProviderKind::Ollama => OLLAMA_PREAMBLE@,
    };
    preamble + "\n\nCONTEXT:\n"@ + context + "\n\nQUESTION:\n"@ + prompt
}

pub fn inference_prompt(kind: ProviderKind, prompt: &str, context: &str) -> (r: String)
    ensures
        r@ == prompt_text_of(kind, prompt@, context@),
{
    let mut r = match kind {
        ProviderKind::Gemini => GEMINI_PREAMBLE.to_owned(),
        ProviderKind::Ollama => OLLAMA_PREAMBLE.to_owned(),
    };
    r.append("\n\nCONTEXT:\n");
    r.append(context);
    r.append("\n\nQUESTION:\n");
    r.append(prompt);
    r
}

/// Where a provider's generate call goes.
pub open spec fn inference_url_of(p: (ProviderKind, Seq<char>, Seq<char>)) -> Seq<char> {
    match p.0 {
        ProviderKind::Gemini => "https://generativelanguage.googleapis.com/v1beta/models/"@ + p.2 + ":generateContent"@,
        ProviderKind::Ollama => p.1 + "/api/generate"@,
    }
}

pub fn inference_url(p: &Provider) -> (r: String)
    ensures
        r@ == inference_url_of(p@),
{
    match p.kind {
        ProviderKind::Gemini => {
            let mut r = "https://generativelanguage.googleapis.com/v1beta/models/".to_owned();
            r.append(p.model.as_str());
            r.append(":generateContent");
            r
        },
        ProviderKind::Ollama => {
            let mut r = p.endpoint.as_str().to_owned();
            r.append("/api/generate");
            r
        },
    }
}

/// The error of a generate call that was answered with a failure status.
pub fn inference_status_error(kind: ProviderKind, status: &str) -> (r: String)
    ensures
        r@ == match kind {
            ProviderKind::Gemini => "gemini: "@,
            ProviderKind::Ollama => "ollama: "@,
        } + status@,
{
    let mut r = match kind {
        ProviderKind::Gemini => "gemini: ".to_owned(),
        ProviderKind::Ollama => "ollama: ".to_owned(),
    };
    r.append(status);
    r
}

/// The answer in a provider's reply, given the text field the reply holds
/// (if any): trimmed; a self-hosted model's blank answer is an error too.
pub fn inference_reply(kind: ProviderKind, text: Option<&str>) -> (r: Result<String, String>)
    ensures
        match kind {
            ProviderKind::Gemini => match text {
                Some(t) => r matches Ok(a) && a@ == trim(t@),
                None => r matches Err(m) && m@ == "gemini: no candidate"@,
            },
            ProviderKind::Ollama => match text {
                Some(t) if trim(t@).len() > 0 => r matches Ok(a) && a@ == trim(t@),
                _ => r matches Err(m) && m@ == "ollama: empty response"@,
            },
        },
{
    match kind {
        ProviderKind::Gemini => match text {
            Some(t) => Ok(trim_str(t)),
            None => Err("gemini: no candidate".to_owned()),
        },
        ProviderKind::Ollama => match text {
            Some(t) => {
                let a = trim_str(t);
                if a.as_str().unicode_len() > 0 {
                    Ok(a)
                } else {
                    Err("ollama: empty response".to_owned())
                }
            },
            None => Err("ollama: empty response".to_owned()),
        },
    }
}

// ---------------------------------------------------------------------------
// The model pool and the auto-router
// ---------------------------------------------------------------------------

/// The cache key of a pool model.
pub open spec fn pool_key(base: Seq<char>, model: Seq<char>) -> Seq<char> {
    base + "|"@ + model
}

pub open spec fn key_is(k: Seq<char>) -> spec_fn((Seq<char>, (ProviderKind, Seq<char>, Seq<char>))) -> bool {
    |e: (Seq<char>, (ProviderKind, Seq<char>, Seq<char>))| e.0 == k
}

/// The provider the pool hands out for (base, model): the cached one under
/// the key, else a new Ollama provider.
pub open spec fn pool_lookup(
    entries: Seq<(Seq<char>, (ProviderKind, Seq<char>, Seq<char>))>,
    base: Seq<char>,
    model: Seq<char>,
) -> (ProviderKind, Seq<char>, Seq<char>) {
    let i = first_where(entries, key_is(pool_key(base, model)));
    if i >= 0 { entries[i].1 } else { ollama_view(base, model) }
}

/// The pool's cache after handing out a provider for (base, model).
pub open spec fn pool_after(
    entries: Seq<(Seq<char>, (ProviderKind, Seq<char>, Seq<char>))>,
    base: Seq<char>,
    model: Seq<char>,
) -> Seq<(Seq<char>, (ProviderKind, Seq<char>, Seq<char>))> {
    let i = first_where(entries, key_is(pool_key(base, model)));
    if i >= 0 { entries } else { entries.push((pool_key(base, model), ollama_view(base, model))) }
}

/// A pool entry as `provider_for` stores one: an Ollama provider for some
/// (base, model) under that pair's key.
pub open spec fn pool_entry_ok(e: (Seq<char>, (ProviderKind, Seq<char>, Seq<char>))) -> bool {
    exists|b: Seq<char>, m: Seq<char>| e.0 == pool_key(b, m) && e.1 == ollama_view(b, m)
}

pub open spec fn pool_ok(entries: Seq<(Seq<char>, (ProviderKind, Seq<char>, Seq<char>))>) -> bool {
    forall|i: int| 0 <= i < entries.len() ==> pool_entry_ok(#[trigger] entries[i])
}

/// Asking the pool twice for (base, model) gives the same provider, built
/// once. In a pool that `provider_for` filled, that provider is an Ollama
/// provider built for a pair with the same key as (base, model); the pair
/// itself when no two pairs share a key, since a key is `base|model`.
pub proof fn law_pool_reuses(
    entries: Seq<(Seq<char>, (ProviderKind, Seq<char>, Seq<char>))>,
    base: Seq<char>,
    model: Seq<char>,
)
    ensures
        pool_lookup(pool_after(entries, base, model), base, model) == pool_lookup(entries, base, model),
        pool_after(pool_after(entries, base, model), base, model) == pool_after(entries, base, model),
        pool_ok(entries) ==> pool_ok(pool_after(entries, base, model)),
        pool_ok(entries) ==> exists|b: Seq<char>, m: Seq<char>|
            pool_key(b, m) == pool_key(base, model) && #[trigger] ollama_view(b, m) == pool_lookup(
                entries,
                base,
                model,
            ),
{
    let pred = key_is(pool_key(base, model));
    lemma_first_where(entries, pred);
    let i = first_where(entries, pred);
    if i < 0 {
        let after = entries.push((pool_key(base, model), ollama_view(base, model)));
        assert(after[entries.len() as int] == (pool_key(base, model), ollama_view(base, model)));
        assert forall|j: int| 0 <= j < entries.len() implies !pred(#[trigger] after[j]) by {
            assert(after[j] == entries[j]);
        }
        lemma_first_where_at(after, pred, entries.len() as int);
        if pool_ok(entries) {
            assert forall|j: int| 0 <= j < after.len() implies pool_entry_ok(#[trigger] after[j]) by {
                if j < entries.len() {
                    assert(after[j] == entries[j]);
                } else {
                    assert(after[j].0 == pool_key(base, model) && after[j].1 == ollama_view(base, model));
                }
            }
            assert(ollama_view(base, model) == pool_lookup(entries, base, model));
        }
    } else {
        if pool_ok(entries) {
            assert(pool_entry_ok(entries[i]));
            let (b, m) = choose|b: Seq<char>, m: Seq<char>|
                entries[i].0 == pool_key(b, m) && entries[i].1 == ollama_view(b, m);
            assert(pool_key(b, m) == pool_key(base, model) && ollama_view(b, m) == pool_lookup(entries, base, model));
        }
    }
}

/// Providers built for pool models, kept so routing does not rebuild them.
#[derive(Debug)]
pub struct ModelPool {
    cache: Vec<(String, Provider)>,
}

impl ModelPool {
    /// The cached providers by key, in insertion order.
    pub closed spec fn entries(&self) -> Seq<(Seq<char>, (ProviderKind, Seq<char>, Seq<char>))> {
        self.cache@.map_values(|e: (String, Provider)| (e.0@, e.1@))
    }

    /// Every cached entry is the Ollama provider of a (base, model) pair,
    /// stored under that pair's key.
    #[verifier::type_invariant]
    spec fn cached_are_ollama(&self) -> bool {
        pool_ok(self.entries())
    }

    /// An empty pool.
    pub fn new() -> (p: Self)
        ensures
            p.entries() == Seq::<(Seq<char>, (ProviderKind, Seq<char>, Seq<char>))>::empty(),
    {
        let p = ModelPool { cache: Vec::new() };
        assert(p.entries() =~= Seq::<(Seq<char>, (ProviderKind, Seq<char>, Seq<char>))>::empty());
        p
    }

    /// The provider for a pool model at `base` serving `model`.
    pub fn provider_for(&mut self, base: &str, model: &str) -> (p: Provider)
        ensures
            p@ == pool_lookup(old(self).entries(), base@, model@),
            final(self).entries() == pool_after(old(self).entries(), base@, model@),
            exists|b: Seq<char>, m: Seq<char>|
                pool_key(b, m) == pool_key(base@, model@) && #[trigger] ollama_view(b, m) == p@,
            pool_ok(final(self).entries()),
    {
        proof {
            use_type_invariant(&*self);
            law_pool_reuses(self.entries(), base@, model@);
        }
        let mut key = base.to_owned();
        key.append("|");
        key.append(model);
        let ghost es = self.entries();
        let ghost pred = key_is(pool_key(base@, model@));
        let mut i: usize = 0;
        while i < self.cache.len()
            invariant
                i <= self.cache.len(),
                es == self.entries(),
                key@ == pool_key(base@, model@),
                pred == key_is(pool_key(base@, model@)),
                forall|j: int| 0 <= j < i ==> !pred(#[trigger] es[j]),
                pool_ok(es),
                exists|b: Seq<char>, m: Seq<char>|
                    pool_key(b, m) == pool_key(base@, model@) && #[trigger] ollama_view(b, m) == pool_lookup(
                        es,
                        base@,
                        model@,
                    ),
            decreases self.cache.len() - i,
        {
            assert(es[i as int] == (self.cache@[i as int].0@, self.cache@[i as int].1@));
            if str_eq(self.cache[i].0.as_str(), key.as_str()) {
                proof { lemma_first_where_at(es, pred, i as int); }
                return self.cache[i].1.copy();
            }
            i += 1;
        }
        proof { lemma_first_where_none(es, pred); }
        let p = Provider::ollama(base, model);
        let q = p.copy();
        let mut cache: Vec<(String, Provider)> = Vec::new();
        std::mem::swap(&mut cache, &mut self.cache);
        cache.push((key, q));
        assert(cache@.map_values(|e: (String, Provider)| (e.0@, e.1@)) =~= es.push(
            (pool_key(base@, model@), ollama_view(base@, model@)),
        ));
        self.cache = cache;
        p
    }
}

/// A chosen model with a human-readable provenance for the answer.
#[derive(Debug)]
pub struct Route {
    pub provider: Provider,
    pub provenance: String,
}

/// "<model> · hosted by <owner's local part>".
pub open spec fn provenance_of(m: UserModel) -> Seq<char> {
    m.model@ + " · hosted by "@ + owner_local_of(m.owner@)
}

/// The route to a pool model.
pub fn route_from(pool: &mut ModelPool, m: &UserModel) -> (r: Route)
    ensures
        r.provider@ == pool_lookup(old(pool).entries(), m.base@, m.model@),
        r.provenance@ == provenance_of(*m),
        final(pool).entries() == pool_after(old(pool).entries(), m.base@, m.model@),
{
    let owner = owner_local(m.owner.as_str());
    let mut provenance = m.model.as_str().to_owned();
    provenance.append(" · hosted by ");
    provenance.append(owner.as_str());
    Route { provider: pool.provider_for(m.base.as_str(), m.model.as_str()), provenance }
}

/// An enabled model of the asker's own (any scope).
pub open spec fn owned_by(a: Seq<char>) -> spec_fn(UserModel) -> bool {
    |m: UserModel| m.enabled && m.owner@ == a
}

/// An enabled model a wave participant shared to the wave or federation.
pub open spec fn shared_with(ps: Seq<Seq<char>>) -> spec_fn(UserModel) -> bool {
    |m: UserModel| m.enabled && shared_scope(m.scope@) && ps.contains(m.owner@)
}

/// The pool model the router picks, or -1: the asker's own first, then one
/// shared by a participant.
pub open spec fn routed_model(models: Seq<UserModel>, ps: Seq<Seq<char>>, asker: Option<Seq<char>>) -> int {
    let own = match asker {
        Some(a) => first_where(models, owned_by(a)),
        None => -1,
    };
    if own >= 0 { own } else { first_where(models, shared_with(ps)) }
}

pub open spec fn asker_text(asker: Option<&ParticipantId>) -> Option<Seq<char>> {
    match asker {
        Some(a) => Some(participant_text(a@)),
        None => None,
    }
}

fn is_shared_scope_str(scope: &str) -> (b: bool)
    ensures
        b == shared_scope(scope@),
{
    str_eq(scope, "wave") || str_eq(scope, "federation")
}

fn contains_text(v: &Vec<String>, s: &str) -> (b: bool)
    ensures
        b == string_views(v@).contains(s@),
{
    let mut i: usize = 0;
    while i < v.len()
        invariant
            i <= v.len(),
            forall|j: int| 0 <= j < i ==> v@[j]@ != s@,
        decreases v.len() - i,
    {
        if str_eq(v[i].as_str(), s) {
            assert(string_views(v@)[i as int] == s@);
            return true;
        }
        i += 1;
    }
    assert forall|j: int| 0 <= j < string_views(v@).len() implies string_views(v@)[j] != s@ by {
        assert(string_views(v@)[j] == v@[j]@);
    }
    false
}

fn find_owned(models: &Vec<UserModel>, me: &str) -> (r: Option<usize>)
    ensures
        match r {
            Some(k) => k < models.len() && first_where(models@, owned_by(me@)) == k,
            None => first_where(models@, owned_by(me@)) == -1,
        },
{
    let ghost pred = owned_by(me@);
    let mut i: usize = 0;
    while i < models.len()
        invariant
            i <= models.len(),
            pred == owned_by(me@),
            forall|j: int| 0 <= j < i ==> !pred(#[trigger] models@[j]),
        decreases models.len() - i,
    {
        if models[i].enabled && str_eq(models[i].owner.as_str(), me) {
            proof { lemma_first_where_at(models@, pred, i as int); }
            return Some(i);
        }
        i += 1;
    }
    proof { lemma_first_where_none(models@, pred); }
    None
}

fn find_shared(models: &Vec<UserModel>, participants: &Vec<String>) -> (r: Option<usize>)
    ensures
        match r {
            Some(k) => k < models.len() && first_where(models@, shared_with(string_views(participants@))) == k,
            None => first_where(models@, shared_with(string_views(participants@))) == -1,
        },
{
    let ghost pred = shared_with(string_views(participants@));
    let mut i: usize = 0;
    while i < models.len()
        invariant
            i <= models.len(),
            pred == shared_with(string_views(participants@)),
            forall|j: int| 0 <= j < i ==> !pred(#[trigger] models@[j]),
        decreases models.len() - i,
    {
        let m = &models[i];
        if m.enabled && is_shared_scope_str(m.scope.as_str()) && contains_text(participants, m.owner.as_str()) {
            proof { lemma_first_where_at(models@, pred, i as int); }
            return Some(i);
        }
        i += 1;
    }
    proof { lemma_first_where_none(models@, pred); }
    None
}

/// Auto-routes an ask to a model. Precedence: the asker's own enabled model
/// (any scope), then an enabled model a wave participant shared to the wave
/// or the federation, then this node's default provider; `None` only when
/// nothing is configured.
pub fn select_route(
    pool: &mut ModelPool,
    models: &Vec<UserModel>,
    participants: &Vec<String>,
    asker: Option<&ParticipantId>,
    default: Option<Provider>,
) -> (r: Option<Route>)
    ensures
        ({
            let i = routed_model(models@, string_views(participants@), asker_text(asker));
            if i >= 0 {
                &&& r matches Some(route) && route.provenance@ == provenance_of(models@[i])
                    && route.provider@ == pool_lookup(old(pool).entries(), models@[i].base@, models@[i].model@)
                &&& final(pool).entries() == pool_after(
                    old(pool).entries(),
                    models@[i].base@,
                    models@[i].model@,
                )
            } else {
                &&& final(pool).entries() == old(pool).entries()
                &&& match default {
                    Some(d) => r matches Some(route) && route.provider@ == d@ && route.provenance@
                        == provider_model(d@),
                    None => r is None,
                }
            }
        }),
{
    // 1. The asker's own model, whatever its scope.
    if let Some(a) = asker {
        let me = a.to_string();
        if let Some(k) = find_owned(models, me.as_str()) {
            return Some(route_from(pool, &models[k]));
        }
    }
    // 2. A model a participant shared to the wave or the federation.
    if let Some(k) = find_shared(models, participants) {
        return Some(route_from(pool, &models[k]));
    }
    // 3. This node's default provider.
    match default {
        Some(provider) => {
            let provenance = provider.model();
            Some(Route { provider, provenance })
        },
        None => None,
    }
}

/// The outcome of an agent turn from what it found, checked in order: the
/// wave's metadata (none: 404, no such wave), the route to a model (none:
/// 503, no model configured) and the model's answer (a failure: 502,
/// inference failed, with the reason). Otherwise the answer to post and the
/// route's provenance.
pub fn answer_step(meta: Option<&WaveMeta>, route: Option<Route>, infer: Result<String, String>) -> (r: Result<
    (String, String),
    ApiError,
>)
    ensures
        meta is None ==> (r matches Err(e) && e.0 == 404 && e.1@ == "no such wave"@),
        (meta is Some && route is None) ==> (r matches Err(e) && e.0 == 503 && e.1@ == "no model configured"@),
        meta is Some ==> (route matches Some(rt) ==> match infer {
            Err(m) => r matches Err(e) && e.0 == 502 && e.1@ == "inference failed: "@ + m@,
            Ok(a) => r matches Ok((answer, provenance)) && answer@ == a@ && provenance@ == rt.provenance@,
        }),
{
    if meta.is_none() {
        return Err(ApiError::with_status(404, "no such wave"));
    }
    let route = match route {
        Some(rt) => rt,
        None => return Err(ApiError::with_status(503, "no model configured")),
    };
    match infer {
        Ok(answer) => Ok((answer, route.provenance)),
        Err(m) => {
            let mut msg = "inference failed: ".to_owned();
            msg.append(m.as_str());
            Err(ApiError::with_status(502, msg.as_str()))
        },
    }
}

// ---------------------------------------------------------------------------
// Asking
// ---------------------------------------------------------------------------

/// An explicit question to the agent on a wave.
#[derive(Debug)]
pub struct AskRequest {
    pub wave: String,
    pub prompt: String,
}

/// The agent's address on this domain.
pub fn agent_address(domain: &str) -> (r: String)
    ensures
        r@ == AGENT_LOCAL@ + seq!['@'] + domain@,
{
    let mut r = AGENT_LOCAL.to_owned();
    push_char(&mut r, '@');
    r.append(domain);
    r
}

/// The mention that calls the agent: `@assistant`.
pub fn agent_mention() -> (r: String)
    ensures
        r@ == seq!['@'] + AGENT_LOCAL@,
{
    let mut r = String::new();
    push_char(&mut r, '@');
    r.append(AGENT_LOCAL);
    r
}

/// A prompt is asked trimmed, and must be 1 to 4000 bytes long.
pub fn check_prompt(prompt: &str) -> (r: Result<String, ApiError>)
    ensures
        match r {
            Ok(p) => p@ == trim(prompt@) && p@.len() > 0 && utf8_len(p@) <= MAX_PROMPT_BYTES,
            Err(e) => (trim(prompt@).len() == 0 || utf8_len(trim(prompt@)) > MAX_PROMPT_BYTES) && e.0
                == BAD_REQUEST && e.1@ == "prompt must be 1-4000 chars"@,
        },
{
    let p = trim_str(prompt);
    if p.as_str().is_empty() || p.as_str().len() > MAX_PROMPT_BYTES {
        return Err(ApiError::bad_request("prompt must be 1-4000 chars"));
    }
    Ok(p)
}

/// What `strip_html` has produced after a prefix, and whether that prefix
/// ends inside a tag.
pub open spec fn strip_state(s: Seq<char>) -> (Seq<char>, bool)
    decreases s.len(),
{
    if s.len() == 0 {
        (Seq::empty(), false)
    } else {
        let (out, in_tag) = strip_state(s.drop_last());
        let c = s.last();
        if c == '<' {
            (out, true)
        } else if c == '>' {
            (out, false)
        } else if !in_tag {
            (out.push(c), in_tag)
        } else {
            (out, in_tag)
        }
    }
}

/// The text outside `<...>` tags.
pub open spec fn strip_html_of(s: Seq<char>) -> Seq<char> {
    strip_state(s).0
}

/// Drops everything between `<` and `>` (the brackets included).
pub fn strip_html(s: &str) -> (r: String)
    ensures
        r@ == strip_html_of(s@),
{
    let cs = chars_of(s);
    let mut out = String::new();
    let mut in_tag = false;
    let mut i: usize = 0;
    assert(cs@.take(0) =~= Seq::<char>::empty());
    while i < cs.len()
        invariant
            i <= cs.len(),
            cs@ == s@,
            (out@, in_tag) == strip_state(cs@.take(i as int)),
        decreases cs.len() - i,
    {
        let c = cs[i];
        assert(cs@.take(i + 1).drop_last() =~= cs@.take(i as int));
        assert(cs@.take(i + 1).last() == c);
        if c == '<' {
            in_tag = true;
        } else if c == '>' {
            in_tag = false;
        } else if !in_tag {
            push_char(&mut out, c);
        }
        i += 1;
    }
    assert(cs@.take(cs.len() as int) =~= s@);
    out
}

/// The last `n` elements (all of them when there are fewer).
pub open spec fn last_n<A>(s: Seq<A>, n: nat) -> Seq<A> {
    if s.len() <= n { s } else { s.skip(s.len() - n) }
}

/// "- <text>\n" for each text.
pub open spec fn bullet_lines(ts: Seq<Seq<char>>) -> Seq<char>
    decreases ts.len(),
{
    if ts.len() == 0 {
        Seq::empty()
    } else {
        bullet_lines(ts.drop_last()) + "- "@ + ts.last() + "\n"@
    }
}

/// "- [<title>] <snippet without tags>\n" for each hit.
pub open spec fn hit_lines(hs: Seq<SearchHit>) -> Seq<char>
    decreases hs.len(),
{
    if hs.len() == 0 {
        Seq::empty()
    } else {
        hit_lines(hs.drop_last()) + "- ["@ + hs.last().title@ + "] "@ + strip_html_of(hs.last().snippet@) + "\n"@
    }
}

/// "- <name> (<n> files)\n" for each shared folder.
pub open spec fn share_lines(ss: Seq<(String, u32)>) -> Seq<char>
    decreases ss.len(),
{
    if ss.len() == 0 {
        Seq::empty()
    } else {
        share_lines(ss.drop_last()) + "- "@ + ss.last().0@ + " ("@ + decimal(ss.last().1 as nat) + " files)\n"@
    }
}

pub open spec fn blip_texts(live: Seq<(String, String)>) -> Seq<Seq<char>> {
    live.map_values(|b: (String, String)| b.1@)
}

/// The grounding context of an answer: the latest blips, then the search
/// hits over the asker's waves (when there are any), then the folders
/// shared on the wave (when there are any).
pub open spec fn context_text(live: Seq<(String, String)>, hits: Seq<SearchHit>, shares: Seq<(String, u32)>) -> Seq<char> {
    "Recent messages on this wave:\n"@ + bullet_lines(last_n(blip_texts(live), RECENT_BLIPS as nat)) + (if hits.len()
        == 0 {
        Seq::<char>::empty()
    } else {
        "\nRelevant waves you can access:\n"@ + hit_lines(hits)
    }) + (if shares.len() == 0 {
        Seq::<char>::empty()
    } else {
        "\nShared files on this wave:\n"@ + share_lines(shares)
    })
}

/// Assembles the context from the wave's blips as (id, text), the search
/// hits over the waves the asker can access (none without an asker), and
/// the wave's shared folders as (name, file count).
pub fn build_context(live: &Vec<(String, String)>, hits: &Vec<SearchHit>, shares: &Vec<(String, u32)>) -> (r: String)
    ensures
        r@ == context_text(live@, hits@, shares@),
{
    let ghost texts = blip_texts(live@);
    let mut ctx = "Recent messages on this wave:\n".to_owned();
    let ghost head = ctx@;
    let n = live.len();
    let start: usize = if n > RECENT_BLIPS { n - RECENT_BLIPS } else { 0 };
    let mut i = start;
    assert(texts.subrange(start as int, start as int) =~= Seq::<Seq<char>>::empty());
    while i < n
        invariant
            start <= i <= n,
            n == live.len(),
            texts == blip_texts(live@),
            ctx@ == head + bullet_lines(texts.subrange(start as int, i as int)),
        decreases n - i,
    {
        let ghost before = ctx@;
        ctx.append("- ");
        ctx.append(live[i].1.as_str());
        ctx.append("\n");
        assert(texts.subrange(start as int, i + 1).drop_last() =~= texts.subrange(start as int, i as int));
        assert(texts.subrange(start as int, i + 1).last() == live@[i as int].1@);
        assert(ctx@ =~= head + bullet_lines(texts.subrange(start as int, i + 1)));
        i += 1;
    }
    assert(texts.subrange(start as int, n as int) =~= last_n(texts, RECENT_BLIPS as nat));
    let ghost recent = ctx@;
    if hits.len() > 0 {
        ctx.append("\nRelevant waves you can access:\n");
        let ghost mid = ctx@;
        let mut k: usize = 0;
        assert(hits@.take(0) =~= Seq::<SearchHit>::empty());
        while k < hits.len()
            invariant
                k <= hits.len(),
                ctx@ == mid + hit_lines(hits@.take(k as int)),
            decreases hits.len() - k,
        {
            let h = &hits[k];
            ctx.append("- [");
            ctx.append(h.title.as_str());
            ctx.append("] ");
            let plain = strip_html(h.snippet.as_str());
            ctx.append(plain.as_str());
            ctx.append("\n");
            assert(hits@.take(k + 1).drop_last() =~= hits@.take(k as int));
            assert(hits@.take(k + 1).last() == *h);
            assert(ctx@ =~= mid + hit_lines(hits@.take(k + 1)));
            k += 1;
        }
        assert(hits@.take(hits.len() as int) =~= hits@);
    }
    let ghost with_hits = ctx@;
    if shares.len() > 0 {
        ctx.append("\nShared files on this wave:\n");
        let ghost mid = ctx@;
        let mut k: usize = 0;
        assert(shares@.take(0) =~= Seq::<(String, u32)>::empty());
        while k < shares.len()
            invariant
                k <= shares.len(),
                ctx@ == mid + share_lines(shares@.take(k as int)),
            decreases shares.len() - k,
        {
            let sh = &shares[k];
            ctx.append("- ");
            ctx.append(sh.0.as_str());
            ctx.append(" (");
            let count = decimal_string(sh.1 as u64);
            ctx.append(count.as_str());
            ctx.append(" files)\n");
            assert(shares@.take(k + 1).drop_last() =~= shares@.take(k as int));
            assert(shares@.take(k + 1).last() == *sh);
            assert(ctx@ =~= mid + share_lines(shares@.take(k + 1)));
            k += 1;
        }
        assert(shares@.take(shares.len() as int) =~= shares@);
    }
    assert(ctx@ =~= context_text(live@, hits@, shares@));
    ctx
}

// ---------------------------------------------------------------------------
// The @mention worker
// ---------------------------------------------------------------------------

/// What the worker does with one blip of a changed wavelet.
#[derive(Debug, Clone, Copy, PartialEq, Eq, Structural)]
pub enum MentionAction {
    /// Leave it (and look at it again on the next change).
    Skip,
    /// Remember it as handled without answering.
    MarkHandled,
    /// Remember it as handled, then answer it (budget permitting).
    Answer,
}

/// Each blip is answered at most once; the agent's own blips never are;
/// only blips that mention the agent and were written within the last ten
/// minutes are answered (so a restart does not answer history).
pub open spec fn mention_action_of(
    handled: bool,
    author: Seq<char>,
    agent: Seq<char>,
    text: Seq<char>,
    mention: Seq<char>,
    ts: u64,
    now: u64,
) -> MentionAction {
    if handled {
        MentionAction::Skip
    } else if author == agent {
        MentionAction::MarkHandled
    } else if !has_substring(text, mention) {
        MentionAction::Skip
    } else if (if now >= ts { now - ts } else { 0int }) >= MENTION_FRESH_MS {
        MentionAction::MarkHandled
    } else {
        MentionAction::Answer
    }
}

/// The worker's decision for a blip `blip_id` by `author` at `ts`, given the
/// ids it has handled before.
pub fn mention_action(
    handled: &Vec<String>,
    blip_id: &str,
    author: &str,
    agent: &str,
    text: &str,
    mention: &str,
    ts: u64,
    now: u64,
) -> (a: MentionAction)
    ensures
        a == mention_action_of(string_views(handled@).contains(blip_id@), author@, agent@, text@, mention@, ts, now),
{
    if contains_text(handled, blip_id) {
        return MentionAction::Skip;
    }
    if str_eq(author, agent) {
        return MentionAction::MarkHandled;
    }
    if !contains_str(text, mention) {
        return MentionAction::Skip;
    }
    let age: u64 = if now >= ts { now - ts } else { 0 };
    if age >= MENTION_FRESH_MS {
        MentionAction::MarkHandled
    } else {
        MentionAction::Answer
    }
}

/// Answers per wave within `MENTION_WINDOW_MS`.
pub const MENTION_BUDGET: u32 = 20;

/// The window of the per-wave mention budget, in milliseconds.
pub const MENTION_WINDOW_MS: u64 = 3600000;

/// The @mention worker's memory: the blips it has handled and the per-wave
/// answer budget.
pub struct MentionWorker {
    pub handled: Vec<String>,
    pub budget: RateLimiter,
}

impl MentionWorker {
    pub fn new() -> (w: Self)
        ensures
            w.handled@.len() == 0,
            w.budget.wf(),
            w.budget.table() == Seq::<(Seq<char>, Seq<char>, u64, u32)>::empty(),
    {
        MentionWorker { handled: Vec::new(), budget: RateLimiter::new() }
    }

    /// Looks at one blip of `wave` at `now`; says whether to answer it. A
    /// blip the decision marks handled, or answers, is remembered; an
    /// answer also spends the wave's budget of `MENTION_BUDGET` an hour,
    /// and comes only while that budget allows it. So each blip is
    /// answered at most once, and the agent's own blips never are.
    pub fn on_blip(
        &mut self,
        wave: &str,
        blip_id: &str,
        author: &str,
        agent: &str,
        text: &str,
        mention: &str,
        ts: u64,
        now: u64,
    ) -> (answer: bool)
        requires
            old(self).budget.wf(),
        ensures
            final(self).budget.wf(),
            ({
                let act = mention_action_of(
                    string_views(old(self).handled@).contains(blip_id@),
                    author@,
                    agent@,
                    text@,
                    mention@,
                    ts,
                    now,
                );
                &&& string_views(final(self).handled@) == (if act == MentionAction::Skip {
                    string_views(old(self).handled@)
                } else {
                    string_views(old(self).handled@).push(blip_id@)
                })
                &&& final(self).budget.table() == (if act == MentionAction::Answer {
                    limit_after(old(self).budget.table(), wave@, "mention"@, MENTION_WINDOW_MS, now)
                } else {
                    old(self).budget.table()
                })
                &&& answer == (act == MentionAction::Answer && limit_allows(
                    old(self).budget.table(),
                    wave@,
                    "mention"@,
                    MENTION_BUDGET,
                    MENTION_WINDOW_MS,
                    now,
                ))
            }),
            answer ==> !string_views(old(self).handled@).contains(blip_id@) && string_views(
                final(self).handled@,
            ).contains(blip_id@),
            string_views(old(self).handled@).contains(blip_id@) ==> !answer,
            author@ == agent@ ==> !answer,
    {
        let act = mention_action(&self.handled, blip_id, author, agent, text, mention, ts, now);
        match act {
            MentionAction::Skip => false,
            MentionAction::MarkHandled => {
                let ghost before = string_views(self.handled@);
                self.handled.push(blip_id.to_owned());
                assert(string_views(self.handled@) =~= before.push(blip_id@));
                false
            },
            MentionAction::Answer => {
                let ghost before = string_views(self.handled@);
                self.handled.push(blip_id.to_owned());
                assert(string_views(self.handled@) =~= before.push(blip_id@));
                assert(string_views(self.handled@)[before.len() as int] == blip_id@);
                self.budget.check_at(wave, "mention", MENTION_BUDGET, MENTION_WINDOW_MS, now).is_ok()
            },
        }
    }
}

/// The worker runs when the node has a default provider or the pool holds
/// an enabled model.
pub fn agent_can_answer(default_available: bool, models: &Vec<UserModel>) -> (b: bool)
    ensures
        b == (default_available || exists|i: int| 0 <= i < models.len() && (#[trigger] models@[i]).enabled),
{
    if default_available {
        return true;
    }
    let mut i: usize = 0;
    while i < models.len()
        invariant
            i <= models.len(),
            forall|j: int| 0 <= j < i ==> !(#[trigger] models@[j]).enabled,
        decreases models.len() - i,
    {
        if models[i].enabled {
            return true;
        }
        i += 1;
    }
    false
}

// ---------------------------------------------------------------------------
// Agent-authored blips
// ---------------------------------------------------------------------------

/// A reply blip the agent writes into a wavelet document: one paragraph
/// per line of the answer, and a manifest entry threading it under
/// `parent` (a top-level post without one).
#[derive(Debug)]
pub struct AgentBlip {
    pub id: String,
    pub author: String,
    pub ts: u64,
    pub parent: Option<String>,
    pub paragraphs: Vec<String>,
}

pub open spec fn opt_view(o: Option<String>) -> Option<Seq<char>> {
    match o {
        Some(s) => Some(s@),
        None => None,
    }
}

pub open spec fn opt_str_view(o: Option<&str>) -> Option<Seq<char>> {
    match o {
        Some(s) => Some(s@),
        None => None,
    }
}

/// The reply blip for `text` by `agent` at `now`, with a fresh `b+` id.
pub fn plan_agent_blip(agent: &str, text: &str, parent: Option<&str>, now: u64) -> (b: AgentBlip)
    ensures
        exists|raw: Seq<u8>| raw.len() == 6 && b.id@ == "b+"@ + hex_of(raw),
        b.author@ == agent@,
        b.ts == now,
        opt_view(b.parent) == opt_str_view(parent),
        string_views(b.paragraphs@) == split_on(text@, '\n'),
{
    let id = random_id("b+", 6);
    let cs = chars_of(text);
    let lines = split_chars(cs.as_slice(), '\n');
    let mut paragraphs: Vec<String> = Vec::new();
    let mut i: usize = 0;
    while i < lines.len()
        invariant
            i <= lines.len(),
            lines@.map_values(|x: Vec<char>| x@) == split_on(text@, '\n'),
            string_views(paragraphs@) == lines@.map_values(|x: Vec<char>| x@).take(i as int),
        decreases lines.len() - i,
    {
        let line = string_of(lines[i].as_slice());
        let ghost before = paragraphs@;
        paragraphs.push(line);
        assert(string_views(paragraphs@) =~= string_views(before).push(line@));
        assert(lines@.map_values(|x: Vec<char>| x@).take(i + 1) =~= lines@.map_values(|x: Vec<char>| x@).take(
            i as int,
        ).push(lines@[i as int]@));
        i += 1;
    }
    assert(lines@.map_values(|x: Vec<char>| x@).take(lines.len() as int) =~= lines@.map_values(|x: Vec<char>| x@));
    let parent = match parent {
        Some(p) => Some(p.to_owned()),
        None => None,
    };
    AgentBlip { id, author: agent.to_owned(), ts: now, parent, paragraphs }
}

/// A model that a participant of the wave shares with it: enabled, scoped
/// to the wave or to the whole federation, and owned by a participant.
pub open spec fn shared_by_participant(m: UserModel, ps: Seq<Seq<char>>) -> bool {
    m.enabled && (m.scope@ == "wave"@ || m.scope@ == "federation"@) && ps.contains(m.owner@)
}

/// The router's pick among the pool models. When the asker has an enabled
/// model of their own, it is the first such. Otherwise it is the first
/// enabled model that a participant shared to the wave or to the
/// federation, and there is none (-1) exactly when no model is so shared.
pub proof fn law_routing_prefers_own_then_shared(models: Seq<UserModel>, ps: Seq<Seq<char>>, asker: Option<Seq<char>>)
    ensures
        ({
            let i = routed_model(models, ps, asker);
            let own = match asker {
                Some(a) => exists|j: int| 0 <= j < models.len() && #[trigger] models[j].enabled && models[j].owner@ == a,
                None => false,
            };
            &&& own ==> (0 <= i < models.len() && models[i].enabled && Some(models[i].owner@) == asker && forall|j: int|
                0 <= j < i ==> !(#[trigger] models[j].enabled && Some(models[j].owner@) == asker))
            &&& !own ==> (i == -1 <==> forall|j: int|
                0 <= j < models.len() ==> !shared_by_participant(#[trigger] models[j], ps))
            &&& !own ==> (i != -1 ==> 0 <= i < models.len() && shared_by_participant(models[i], ps) && forall|j: int|
                0 <= j < i ==> !shared_by_participant(#[trigger] models[j], ps))
        }),
{
    let p = shared_with(ps);
    lemma_first_where(models, p);
    assert forall|m: UserModel| #[trigger] p(m) == shared_by_participant(m, ps) by {}
    match asker {
        Some(a) => {
            let q = owned_by(a);
            lemma_first_where(models, q);
            if exists|j: int| 0 <= j < models.len() && #[trigger] models[j].enabled && models[j].owner@ == a {
                let j = choose|j: int| 0 <= j < models.len() && #[trigger] models[j].enabled && models[j].owner@ == a;
                assert(q(models[j]));
            } else {
                assert forall|j: int| 0 <= j < models.len() implies !q(#[trigger] models[j]) by {}
            }
        },
        None => {},
    }
}

} // verus!
