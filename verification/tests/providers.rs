use protowave::agent::{inference_prompt, inference_reply, inference_status_error, inference_url, Provider, ProviderKind};
use protowave::translate::{translation_prompt, translation_reply};

#[test]
fn provider_urls() {
    assert_eq!(
        inference_url(&Provider::gemini("key", "g-1")),
        "https://generativelanguage.googleapis.com/v1beta/models/g-1:generateContent"
    );
    assert_eq!(inference_url(&Provider::ollama("http://h:11434/", "m")), "http://h:11434/api/generate");
}

#[test]
fn prompts_carry_context_then_question() {
    let p = inference_prompt(ProviderKind::Ollama, "why?", "[1] notes");
    assert!(p.starts_with("You are the assistant participant in a ProtoWave collaborative wave."));
    assert!(p.ends_with("\n\nCONTEXT:\n[1] notes\n\nQUESTION:\nwhy?"));
    let g = inference_prompt(ProviderKind::Gemini, "q", "c");
    assert!(g.contains("cite which source you used inline"));
    assert!(g.ends_with("\n\nCONTEXT:\nc\n\nQUESTION:\nq"));
}

#[test]
fn replies_are_trimmed_and_blank_local_answers_refused() {
    assert_eq!(inference_reply(ProviderKind::Gemini, Some("  hi \n")).unwrap(), "hi");
    assert_eq!(inference_reply(ProviderKind::Gemini, None).unwrap_err(), "gemini: no candidate");
    assert_eq!(inference_reply(ProviderKind::Ollama, Some("   ")).unwrap_err(), "ollama: empty response");
    assert_eq!(inference_reply(ProviderKind::Ollama, Some(" ok ")).unwrap(), "ok");
    assert_eq!(inference_status_error(ProviderKind::Gemini, "500 Internal Server Error"), "gemini: 500 Internal Server Error");
    assert_eq!(inference_status_error(ProviderKind::Ollama, "404 Not Found"), "ollama: 404 Not Found");
}

#[test]
fn translation_requests_and_replies() {
    let p = translation_prompt("es", "ctx", "hi");
    assert_eq!(
        p,
        "You are a live translation engine inside a collaborative tool. Translate the MESSAGE into the language \
         with code \"es\". Preserve tone and meaning; keep names and code as-is. The message may be an unfinished \
         sentence mid-typing \u{2014} translate what is there naturally. Reply with ONLY the translation.\n\
         CONVERSATION CONTEXT (for disambiguation only):\nctx\nMESSAGE:\nhi"
    );
    assert_eq!(translation_reply(Some(" hola ")).unwrap(), "hola");
    assert_eq!(translation_reply(None).unwrap_err(), "gemini: no candidate text");
}
