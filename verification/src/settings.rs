//! Server settings: the owner (the first account registered here) chooses
//! the hosted inference provider at runtime; the choice persists. Secrets
//! are never stored in settings: a Gemini key comes from the environment.

use vstd::prelude::*;
use crate::agent::{Provider, ProviderKind, ollama_view};
use crate::common::{ApiError, BAD_REQUEST, FORBIDDEN};
use crate::id::{ParticipantId, participant_text};
use crate::text::str_eq;

verus! {

/// Settings key of the owner's address.
pub const OWNER_KEY: &'static str = "owner";
/// Settings key of the provider's name.
pub const PROVIDER_KEY: &'static str = "inference_provider";
/// Settings key of the provider's base URL.
pub const BASE_KEY: &'static str = "inference_base";
/// Settings key of the provider's model.
pub const MODEL_KEY: &'static str = "inference_model";
/// The Gemini model used when none is named.
pub const DEFAULT_GEMINI_MODEL: &'static str = "gemini-3.1-flash-lite";

/// A request to change the hosted provider.
#[derive(Debug)]
pub struct SettingsRequest {
    pub provider: String,
    pub base: String,
    pub model: String,
}

/// Whether `who` is the recorded owner.
pub fn is_owner(owner: Option<&str>, who: &ParticipantId) -> (b: bool)
    ensures
        b == (owner matches Some(o) && o@ == participant_text(who@)),
{
    match owner {
        Some(o) => {
            let me = who.to_string();
            str_eq(o, me.as_str())
        },
        None => false,
    }
}

/// Owner-only endpoints refuse everyone else.
pub fn require_owner(owner: Option<&str>, who: &ParticipantId) -> (r: Result<(), ApiError>)
    ensures
        r is Ok <==> (owner matches Some(o) && o@ == participant_text(who@)),
        r matches Err(e) ==> e.0 == FORBIDDEN && e.1@ == "owner only"@,
{
    if is_owner(owner, who) {
        Ok(())
    } else {
        Err(ApiError::forbidden("owner only"))
    }
}

/// The provider a choice configures: Ollama needs a base URL and a model;
/// Gemini needs a key in the environment and defaults its model.
pub open spec fn provider_choice_of(
    provider: Seq<char>,
    base: Seq<char>,
    model: Seq<char>,
    key: Option<Seq<char>>,
) -> Result<(ProviderKind, Seq<char>, Seq<char>), Seq<char>> {
    if provider == "ollama"@ {
        if base.len() == 0 || model.len() == 0 {
            Err("ollama needs a base URL and model"@)
        } else {
            Ok(ollama_view(base, model))
        }
    } else if provider == "gemini"@ {
        match key {
            None => Err("no Gemini API key configured (set PROTOMOLECULE)"@),
            Some(k) => Ok(
                (ProviderKind::Gemini, k, if model.len() == 0 { DEFAULT_GEMINI_MODEL@ } else { model }),
            ),
        }
    } else {
        Err("unknown provider: "@ + provider)
    }
}

pub open spec fn opt_str(o: Option<&str>) -> Option<Seq<char>> {
    match o {
        Some(s) => Some(s@),
        None => None,
    }
}

/// Resolves a provider choice (`gemini_key` is the environment's key, if
/// set); every refusal is a bad request.
pub fn provider_choice(provider: &str, base: &str, model: &str, gemini_key: Option<&str>) -> (r: Result<
    Provider,
    ApiError,
>)
    ensures
        match provider_choice_of(provider@, base@, model@, opt_str(gemini_key)) {
            Ok(p) => r matches Ok(q) && q@ == p,
            Err(m) => r matches Err(e) && e.0 == BAD_REQUEST && e.1@ == m,
        },
{
    if str_eq(provider, "ollama") {
        if base.is_empty() || model.is_empty() {
            return Err(ApiError::bad_request("ollama needs a base URL and model"));
        }
        Ok(Provider::ollama(base, model))
    } else if str_eq(provider, "gemini") {
        match gemini_key {
            None => Err(ApiError::bad_request("no Gemini API key configured (set PROTOMOLECULE)")),
            Some(k) => {
                let m = if model.is_empty() { DEFAULT_GEMINI_MODEL } else { model };
                Ok(Provider::gemini(k, m))
            },
        }
    } else {
        let mut msg = "unknown provider: ".to_owned();
        msg.append(provider);
        Err(ApiError::bad_request(msg.as_str()))
    }
}

} // verus!
