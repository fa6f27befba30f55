//! Live translation overlays. Translations are ephemeral overlays keyed by
//! blip content, never stored in the document; content only leaves the
//! server for waves that opted in; provider calls are capped by a budget;
//! a blip whose text is unchanged is never translated twice into the same
//! language.

use vstd::prelude::*;
use crate::common::ApiError;
use crate::id::{ParticipantId, participant_text};
use crate::protocol::{encode_translation, translation_bytes, entry_view};
use crate::store::WaveMeta;
use crate::text::{push_char, str_eq, string_views, strictly_sorted, insert_sorted_unique};
use crate::waves::{on_wave, is_participant};
use crate::wire::{Channel, Envelope, envelope_bytes, channel_code};
use crate::ws::{error_frame, error_frame_of};

verus! {

/// A translation provider. `context` is the conversation so far, for
/// disambiguation only.
pub trait Translator {
    fn translate(&mut self, target_lang: &str, context: &str, text: &str) -> Result<String, String>;
}

/// A deterministic provider for tests: "[lang] text", counting its calls.
#[derive(Debug)]
pub struct MockTranslator {
    pub calls: u64,
}

/// What the mock provider answers.
pub open spec fn mock_translation(lang: Seq<char>, text: Seq<char>) -> Seq<char> {
    seq!['['] + lang + "] "@ + text
}

impl MockTranslator {
    pub fn new() -> (m: Self)
        ensures
            m.calls == 0,
    {
        MockTranslator { calls: 0 }
    }
}

impl Default for MockTranslator {
    fn default() -> (m: Self)
        ensures
            m.calls == 0,
    {
        MockTranslator { calls: 0 }
    }
}

impl Translator for MockTranslator {
    fn translate(&mut self, target_lang: &str, context: &str, text: &str) -> (r: Result<String, String>)
        ensures
            r matches Ok(t) && t@ == mock_translation(target_lang@, text@),
            final(self).calls == (if old(self).calls < u64::MAX { old(self).calls + 1 } else { 0 }),
    {
        self.calls = if self.calls < u64::MAX { self.calls + 1 } else { 0 };
        let mut t = String::new();
        push_char(&mut t, '[');
        t.append(target_lang);
        t.append("] ");
        t.append(text);
        Ok(t)
    }
}

/// std's `DefaultHasher` digest of a string (the same in every run of a
/// build: `DefaultHasher::new` is not randomly keyed).
pub uninterp spec fn default_hash_text(text: Seq<char>) -> u64;

/// `DefaultHasher::new`, `str::hash` and `finish`: the content hash that
/// keys the translation cache.
#[verifier::external_body]
fn content_hash(text: &str) -> (h: u64)
    ensures
        h == default_hash_text(text@),
{
    let mut h = std::collections::hash_map::DefaultHasher::new();
    std::hash::Hash::hash(text, &mut h);
    std::hash::Hasher::finish(&h)
}

// ---------------------------------------------------------------------------
// The hosted translator's request and reply
// ---------------------------------------------------------------------------

/// The hosted translator's instructions, before and after the language code.
pub const TRANSLATE_INTRO: &'static str = "You are a live translation engine inside a collaborative tool. Translate the MESSAGE into the language with code ";

pub const TRANSLATE_RULES: &'static str = ". Preserve tone and meaning; keep names and code as-is. The message may be an unfinished sentence mid-typing \u{2014} translate what is there naturally. Reply with ONLY the translation.\nCONVERSATION CONTEXT (for disambiguation only):\n";

/// The prompt asking the hosted model for a translation: the language code
/// as Rust debug-quotes it, the context, then the message.
pub open spec fn translation_prompt_of(target_lang: Seq<char>, context: Seq<char>, text: Seq<char>) -> Seq<char> {
    TRANSLATE_INTRO@ + crate::id::debug_text(target_lang) + TRANSLATE_RULES@ + context + "\nMESSAGE:\n"@ + text
}

pub fn translation_prompt(target_lang: &str, context: &str, text: &str) -> (r: String)
    ensures
        r@ == translation_prompt_of(target_lang@, context@, text@),
{
    let mut r = TRANSLATE_INTRO.to_owned();
    let quoted = crate::id::debug_str(target_lang);
    r.append(quoted.as_str());
    r.append(TRANSLATE_RULES);
    r.append(context);
    r.append("\nMESSAGE:\n");
    r.append(text);
    r
}

/// The translation in the hosted model's reply, given the text field the
/// reply holds (if any): trimmed.
pub fn translation_reply(text: Option<&str>) -> (r: Result<String, String>)
    ensures
        match text {
            Some(t) => r matches Ok(a) && a@ == crate::common::trim(t@),
            None => r matches Err(m) && m@ == "gemini: no candidate text"@,
        },
{
    match text {
        Some(t) => Ok(crate::common::trim_str(t)),
        None => Err("gemini: no candidate text".to_owned()),
    }
}

// ---------------------------------------------------------------------------
// Subscriptions and the cache, as plain values
// ---------------------------------------------------------------------------

/// Index of the subscription of `conn` to `wavelet`, or -1.
pub open spec fn sub_index(s: Seq<(Seq<char>, u64, Seq<char>)>, wavelet: Seq<char>, conn: u64) -> int
    decreases s.len(),
{
    if s.len() == 0 {
        -1
    } else if s.last().0 == wavelet && s.last().1 == conn {
        s.len() - 1
    } else {
        sub_index(s.drop_last(), wavelet, conn)
    }
}

proof fn lemma_sub_index(s: Seq<(Seq<char>, u64, Seq<char>)>, wavelet: Seq<char>, conn: u64)
    ensures
        -1 <= sub_index(s, wavelet, conn) < s.len(),
        sub_index(s, wavelet, conn) >= 0 ==> s[sub_index(s, wavelet, conn)].0 == wavelet && s[sub_index(
            s,
            wavelet,
            conn,
        )].1 == conn,
    decreases s.len(),
{
    if s.len() > 0 && !(s.last().0 == wavelet && s.last().1 == conn) {
        lemma_sub_index(s.drop_last(), wavelet, conn);
    }
}

/// The subscriptions without those of `conn`.
pub open spec fn without_conn(s: Seq<(Seq<char>, u64, Seq<char>)>, conn: u64) -> Seq<(Seq<char>, u64, Seq<char>)>
    decreases s.len(),
{
    if s.len() == 0 {
        s
    } else if s.last().1 == conn {
        without_conn(s.drop_last(), conn)
    } else {
        without_conn(s.drop_last(), conn).push(s.last())
    }
}

/// The connections subscribed to `wavelet` in `lang`, in order.
pub open spec fn conns_for(s: Seq<(Seq<char>, u64, Seq<char>)>, wavelet: Seq<char>, lang: Seq<char>) -> Seq<u64>
    decreases s.len(),
{
    if s.len() == 0 {
        Seq::empty()
    } else if s.last().0 == wavelet && s.last().2 == lang {
        conns_for(s.drop_last(), wavelet, lang).push(s.last().1)
    } else {
        conns_for(s.drop_last(), wavelet, lang)
    }
}

/// The languages some connection reads `wavelet` in.
pub open spec fn langs_for(s: Seq<(Seq<char>, u64, Seq<char>)>, wavelet: Seq<char>) -> Set<Seq<char>> {
    Set::new(|l: Seq<char>| exists|i: int| 0 <= i < s.len() && (#[trigger] s[i]).0 == wavelet && s[i].2 == l)
}

/// The cached translation of content `hash` into `lang`, if any.
pub open spec fn cache_lookup(c: Seq<(u64, Seq<char>, Seq<char>)>, hash: u64, lang: Seq<char>) -> Option<Seq<char>>
    decreases c.len(),
{
    if c.len() == 0 {
        None
    } else if c.last().0 == hash && c.last().1 == lang {
        Some(c.last().2)
    } else {
        cache_lookup(c.drop_last(), hash, lang)
    }
}

/// One overlay delivery: the frame for one language and who receives it.
#[derive(Debug)]
pub struct Delivery {
    pub lang: String,
    pub conns: Vec<u64>,
    /// (blip id, translated text, pending)
    pub entries: Vec<(String, String, bool)>,
    pub frame: Vec<u8>,
}

/// The frame of a translation overlay.
pub open spec fn translation_frame_of(wavelet: Seq<char>, lang: Seq<char>, es: Seq<(Seq<char>, Seq<char>, bool)>) -> Seq<u8> {
    envelope_bytes(channel_code(Channel::Translation), translation_bytes(wavelet, lang, es))
}

/// The translation hub: the provider, the subscriptions (wavelet,
/// connection, language), the content-keyed cache and the call budget,
/// with a record of every provider call: (language, context, text, the
/// translation or none when the call failed).
pub struct TranslationHub<T> {
    translator: Option<T>,
    cache: Vec<(u64, String, String)>,
    subs: Vec<(String, u64, String)>,
    calls: u64,
    call_cap: u64,
    asked: Ghost<Seq<(Seq<char>, Seq<char>, Seq<char>, Option<Seq<char>>)>>,
}

// ---------------------------------------------------------------------------
// A translation pass, given the provider's answers
// ---------------------------------------------------------------------------

/// A pass in progress: the entries so far, the cache, the calls counted,
/// and the provider calls made, as (language, text).
pub type PassState = (
    Seq<(Seq<char>, Seq<char>, bool)>,
    Seq<(u64, Seq<char>, Seq<char>)>,
    u64,
    Seq<(Seq<char>, Seq<char>)>,
);

pub open spec fn blip_views(blips: Seq<(String, String)>) -> Seq<(Seq<char>, Seq<char>)> {
    blips.map_values(|b: (String, String)| (b.0@, b.1@))
}

/// One blip of a pass into `lang`: a cached text is used as it is; a miss
/// is counted, and while the count was under the budget the provider is
/// asked, its `answers` taken in order; a translation is cached and used,
/// a failure leaves the blip out.
pub open spec fn pass_step(
    st: PassState,
    blip: (Seq<char>, Seq<char>),
    lang: Seq<char>,
    cap: u64,
    answers: Seq<Option<Seq<char>>>,
) -> PassState {
    let h = default_hash_text(blip.1);
    match cache_lookup(st.1, h, lang) {
        Some(t) => (st.0.push((blip.0, t, false)), st.1, st.2, st.3),
        None => {
            let calls = if st.2 < u64::MAX { (st.2 + 1) as u64 } else { st.2 };
            if st.2 >= cap {
                (st.0, st.1, calls, st.3)
            } else {
                let asks = st.3.push((lang, blip.1));
                match answers[st.3.len() as int] {
                    Some(t) => (st.0.push((blip.0, t, false)), st.1.push((h, lang, t)), calls, asks),
                    None => (st.0, st.1, calls, asks),
                }
            }
        },
    }
}

/// A pass over the blips, in order, into one language.
pub open spec fn lang_pass(
    blips: Seq<(Seq<char>, Seq<char>)>,
    lang: Seq<char>,
    cap: u64,
    answers: Seq<Option<Seq<char>>>,
    st: PassState,
) -> PassState
    decreases blips.len(),
{
    if blips.len() == 0 {
        st
    } else {
        pass_step(lang_pass(blips.drop_last(), lang, cap, answers, st), blips.last(), lang, cap, answers)
    }
}

/// The overlays of a wavelet as (language, entries), the cache, the calls
/// counted and the provider calls made, after a pass into each language
/// in order; a language with no entry gets no overlay.
pub type WaveState = (
    Seq<(Seq<char>, Seq<(Seq<char>, Seq<char>, bool)>)>,
    Seq<(u64, Seq<char>, Seq<char>)>,
    u64,
    Seq<(Seq<char>, Seq<char>)>,
);

pub open spec fn wave_pass(
    langs: Seq<Seq<char>>,
    blips: Seq<(Seq<char>, Seq<char>)>,
    cap: u64,
    answers: Seq<Option<Seq<char>>>,
    cache: Seq<(u64, Seq<char>, Seq<char>)>,
    calls: u64,
) -> WaveState
    decreases langs.len(),
{
    if langs.len() == 0 {
        (Seq::empty(), cache, calls, Seq::empty())
    } else {
        let w = wave_pass(langs.drop_last(), blips, cap, answers, cache, calls);
        let l = langs.last();
        let p = lang_pass(blips, l, cap, answers, (Seq::empty(), w.1, w.2, w.3));
        (if p.0.len() > 0 { w.0.push((l, p.0)) } else { w.0 }, p.1, p.2, p.3)
    }
}

/// The outcome of passes into a set of languages, in sorted order: the
/// provider calls made are `new_calls`, in order, and the overlays, cache
/// and call count come out as given.
pub open spec fn wave_result(
    langs: Set<Seq<char>>,
    blips: Seq<(Seq<char>, Seq<char>)>,
    cap: u64,
    cache0: Seq<(u64, Seq<char>, Seq<char>)>,
    calls0: u64,
    new_calls: Seq<(Seq<char>, Seq<char>, Seq<char>, Option<Seq<char>>)>,
    overlays: Seq<(Seq<char>, Seq<(Seq<char>, Seq<char>, bool)>)>,
    cache1: Seq<(u64, Seq<char>, Seq<char>)>,
    calls1: u64,
) -> bool {
    exists|ls: Seq<Seq<char>>|
        #![trigger wave_pass(ls, blips, cap, answers_of(new_calls), cache0, calls0)]
        {
            &&& strictly_sorted(ls)
            &&& ls.to_set() == langs
            &&& wave_pass(ls, blips, cap, answers_of(new_calls), cache0, calls0) == (
                overlays,
                cache1,
                calls1,
                asks_of(new_calls),
            )
        }
}

pub open spec fn answers_of(log: Seq<(Seq<char>, Seq<char>, Seq<char>, Option<Seq<char>>)>) -> Seq<Option<Seq<char>>> {
    log.map_values(|e: (Seq<char>, Seq<char>, Seq<char>, Option<Seq<char>>)| e.3)
}

pub open spec fn asks_of(log: Seq<(Seq<char>, Seq<char>, Seq<char>, Option<Seq<char>>)>) -> Seq<(Seq<char>, Seq<char>)> {
    log.map_values(|e: (Seq<char>, Seq<char>, Seq<char>, Option<Seq<char>>)| (e.0, e.2))
}

pub open spec fn entries_view(es: Seq<(String, String, bool)>) -> Seq<(Seq<char>, Seq<char>, bool)> {
    es.map_values(|e: (String, String, bool)| entry_view(e))
}

pub open spec fn deliveries_view(ds: Seq<Delivery>) -> Seq<(Seq<char>, Seq<(Seq<char>, Seq<char>, bool)>)> {
    ds.map_values(|d: Delivery| (d.lang@, entries_view(d.entries@)))
}

proof fn lemma_lang_pass_asks(
    blips: Seq<(Seq<char>, Seq<char>)>,
    lang: Seq<char>,
    cap: u64,
    answers: Seq<Option<Seq<char>>>,
    st: PassState,
)
    ensures
        st.3.len() <= lang_pass(blips, lang, cap, answers, st).3.len(),
    decreases blips.len(),
{
    if blips.len() > 0 {
        lemma_lang_pass_asks(blips.drop_last(), lang, cap, answers, st);
    }
}

/// A pass reads no answer past the calls it makes.
proof fn lemma_lang_pass_answers(
    blips: Seq<(Seq<char>, Seq<char>)>,
    lang: Seq<char>,
    cap: u64,
    a: Seq<Option<Seq<char>>>,
    b: Seq<Option<Seq<char>>>,
    st: PassState,
)
    requires
        forall|i: int| 0 <= i < lang_pass(blips, lang, cap, a, st).3.len() ==> a[i] == b[i],
    ensures
        lang_pass(blips, lang, cap, b, st) == lang_pass(blips, lang, cap, a, st),
    decreases blips.len(),
{
    if blips.len() > 0 {
        let prev = lang_pass(blips.drop_last(), lang, cap, a, st);
        assert(prev.3.len() <= lang_pass(blips, lang, cap, a, st).3.len());
        lemma_lang_pass_answers(blips.drop_last(), lang, cap, a, b, st);
    }
}

proof fn lemma_wave_pass_answers(
    langs: Seq<Seq<char>>,
    blips: Seq<(Seq<char>, Seq<char>)>,
    cap: u64,
    a: Seq<Option<Seq<char>>>,
    b: Seq<Option<Seq<char>>>,
    cache: Seq<(u64, Seq<char>, Seq<char>)>,
    calls: u64,
)
    requires
        forall|i: int| 0 <= i < wave_pass(langs, blips, cap, a, cache, calls).3.len() ==> a[i] == b[i],
    ensures
        wave_pass(langs, blips, cap, b, cache, calls) == wave_pass(langs, blips, cap, a, cache, calls),
    decreases langs.len(),
{
    if langs.len() > 0 {
        let w = wave_pass(langs.drop_last(), blips, cap, a, cache, calls);
        let st = (Seq::<(Seq<char>, Seq<char>, bool)>::empty(), w.1, w.2, w.3);
        lemma_lang_pass_asks(blips, langs.last(), cap, a, st);
        lemma_wave_pass_answers(langs.drop_last(), blips, cap, a, b, cache, calls);
        lemma_lang_pass_answers(blips, langs.last(), cap, a, b, st);
    }
}

impl<T: Translator> TranslationHub<T> {
    pub closed spec fn subs_view(&self) -> Seq<(Seq<char>, u64, Seq<char>)> {
        self.subs@.map_values(|s: (String, u64, String)| (s.0@, s.1, s.2@))
    }

    pub closed spec fn cache_view(&self) -> Seq<(u64, Seq<char>, Seq<char>)> {
        self.cache@.map_values(|c: (u64, String, String)| (c.0, c.1@, c.2@))
    }

    pub closed spec fn has_translator(&self) -> bool {
        self.translator is Some
    }

    /// Provider calls attempted so far.
    pub closed spec fn calls_spec(&self) -> u64 {
        self.calls
    }

    /// The budget of provider calls.
    pub closed spec fn cap_spec(&self) -> u64 {
        self.call_cap
    }

    /// Every provider call made: (language, context, text, answer).
    pub closed spec fn asked_view(&self) -> Seq<(Seq<char>, Seq<char>, Seq<char>, Option<Seq<char>>)> {
        self.asked@
    }

    /// A hub with no provider, no subscriptions and an empty cache.
    pub fn new(call_cap: u64) -> (h: Self)
        ensures
            !h.has_translator(),
            h.subs_view() == Seq::<(Seq<char>, u64, Seq<char>)>::empty(),
            h.cache_view() == Seq::<(u64, Seq<char>, Seq<char>)>::empty(),
            h.calls_spec() == 0,
            h.cap_spec() == call_cap,
    {
        let h = TranslationHub {
            translator: None,
            cache: Vec::new(),
            subs: Vec::new(),
            calls: 0,
            call_cap,
            asked: Ghost(Seq::empty()),
        };
        assert(h.subs_view() =~= Seq::<(Seq<char>, u64, Seq<char>)>::empty());
        assert(h.cache_view() =~= Seq::<(u64, Seq<char>, Seq<char>)>::empty());
        h
    }

    /// Installs the provider.
    pub fn set_translator(&mut self, t: T)
        ensures
            final(self).has_translator(),
            final(self).subs_view() == old(self).subs_view(),
            final(self).cache_view() == old(self).cache_view(),
            final(self).calls_spec() == old(self).calls_spec(),
            final(self).cap_spec() == old(self).cap_spec(),
    {
        self.translator = Some(t);
    }

    /// Whether a provider is installed.
    pub fn available(&self) -> (b: bool)
        ensures
            b == self.has_translator(),
    {
        self.translator.is_some()
    }

    fn find_sub(&self, wavelet: &str, conn: u64) -> (r: Option<usize>)
        ensures
            match r {
                Some(i) => i < self.subs_view().len() && sub_index(self.subs_view(), wavelet@, conn) == i,
                None => sub_index(self.subs_view(), wavelet@, conn) == -1,
            },
    {
        let ghost v = self.subs_view();
        let mut i = self.subs.len();
        assert(v.take(i as int) =~= v);
        while i > 0
            invariant
                i <= self.subs.len(),
                v == self.subs_view(),
                sub_index(v, wavelet@, conn) == sub_index(v.take(i as int), wavelet@, conn),
            decreases i,
        {
            assert(v.take(i as int).last() == v[i - 1]);
            if str_eq(self.subs[i - 1].0.as_str(), wavelet) && self.subs[i - 1].1 == conn {
                return Some(i - 1);
            }
            assert(v.take(i as int).drop_last() =~= v.take(i - 1));
            i -= 1;
        }
        None
    }

    /// Subscribes connection `conn` to overlays of `wavelet` in `lang`
    /// (replacing its earlier language there).
    pub fn subscribe(&mut self, wavelet: &str, conn: u64, lang: &str)
        ensures
            final(self).subs_view() == ({
                let s = old(self).subs_view();
                let i = sub_index(s, wavelet@, conn);
                if i >= 0 { s.update(i, (wavelet@, conn, lang@)) } else { s.push((wavelet@, conn, lang@)) }
            }),
            final(self).cache_view() == old(self).cache_view(),
            final(self).has_translator() == old(self).has_translator(),
            final(self).calls_spec() == old(self).calls_spec(),
            final(self).cap_spec() == old(self).cap_spec(),
    {
        let ghost s = self.subs_view();
        let entry = (wavelet.to_owned(), conn, lang.to_owned());
        match self.find_sub(wavelet, conn) {
            Some(i) => {
                self.subs.set(i, entry);
                assert(self.subs_view() =~= s.update(i as int, (wavelet@, conn, lang@)));
            },
            None => {
                self.subs.push(entry);
                assert(self.subs_view() =~= s.push((wavelet@, conn, lang@)));
            },
        }
    }

    /// Ends connection `conn`'s overlays of `wavelet`.
    pub fn unsubscribe(&mut self, wavelet: &str, conn: u64)
        ensures
            final(self).subs_view() == ({
                let s = old(self).subs_view();
                let i = sub_index(s, wavelet@, conn);
                if i >= 0 { s.remove(i) } else { s }
            }),
            final(self).cache_view() == old(self).cache_view(),
            final(self).has_translator() == old(self).has_translator(),
            final(self).calls_spec() == old(self).calls_spec(),
            final(self).cap_spec() == old(self).cap_spec(),
    {
        let ghost s = self.subs_view();
        match self.find_sub(wavelet, conn) {
            Some(i) => {
                self.subs.remove(i);
                assert(self.subs_view() =~= s.remove(i as int));
            },
            None => {},
        }
    }

    /// Ends every overlay of connection `conn` (it closed).
    pub fn drop_conn(&mut self, conn: u64)
        ensures
            final(self).subs_view() == without_conn(old(self).subs_view(), conn),
            final(self).cache_view() == old(self).cache_view(),
            final(self).has_translator() == old(self).has_translator(),
            final(self).calls_spec() == old(self).calls_spec(),
            final(self).cap_spec() == old(self).cap_spec(),
    {
        let ghost s = self.subs_view();
        let mut kept: Vec<(String, u64, String)> = Vec::new();
        let mut i: usize = 0;
        assert(s.take(0) =~= Seq::<(Seq<char>, u64, Seq<char>)>::empty());
        while i < self.subs.len()
            invariant
                i <= self.subs.len(),
                s == self.subs_view(),
                kept@.map_values(|s: (String, u64, String)| (s.0@, s.1, s.2@)) == without_conn(s.take(i as int), conn),
            decreases self.subs.len() - i,
        {
            assert(s.take(i + 1).drop_last() =~= s.take(i as int));
            assert(s.take(i + 1).last() == s[i as int]);
            if self.subs[i].1 != conn {
                let e = (self.subs[i].0.as_str().to_owned(), self.subs[i].1, self.subs[i].2.as_str().to_owned());
                let ghost before = kept@;
                kept.push(e);
                assert(kept@.map_values(|s: (String, u64, String)| (s.0@, s.1, s.2@)) =~= before.map_values(
                    |s: (String, u64, String)| (s.0@, s.1, s.2@),
                ).push(s[i as int]));
            }
            i += 1;
        }
        assert(s.take(self.subs.len() as int) =~= s);
        self.subs = kept;
    }

    /// The languages `wavelet` is read in, sorted, each once.
    pub fn languages_for(&self, wavelet: &str) -> (r: Vec<String>)
        ensures
            strictly_sorted(string_views(r@)),
            string_views(r@).to_set() == langs_for(self.subs_view(), wavelet@),
    {
        let ghost s = self.subs_view();
        let mut r: Vec<String> = Vec::new();
        let mut i: usize = 0;
        assert(string_views(r@).to_set() =~= Set::<Seq<char>>::empty());
        while i < self.subs.len()
            invariant
                i <= self.subs.len(),
                s == self.subs_view(),
                strictly_sorted(string_views(r@)),
                string_views(r@).to_set() == Set::new(
                    |l: Seq<char>| exists|k: int| 0 <= k < i && (#[trigger] s[k]).0 == wavelet@ && s[k].2 == l,
                ),
            decreases self.subs.len() - i,
        {
            let ghost before = string_views(r@).to_set();
            if str_eq(self.subs[i].0.as_str(), wavelet) {
                insert_sorted_unique(&mut r, self.subs[i].2.as_str().to_owned());
            }
            assert(s[i as int] == (self.subs@[i as int].0@, self.subs@[i as int].1, self.subs@[i as int].2@));
            assert(string_views(r@).to_set() =~= Set::new(
                |l: Seq<char>| exists|k: int| 0 <= k < i + 1 && (#[trigger] s[k]).0 == wavelet@ && s[k].2 == l,
            )) by {
                assert forall|l: Seq<char>|
                    (exists|k: int| 0 <= k < i + 1 && (#[trigger] s[k]).0 == wavelet@ && s[k].2 == l) implies
                    string_views(r@).to_set().contains(l) by {
                    let k = choose|k: int| 0 <= k < i + 1 && (#[trigger] s[k]).0 == wavelet@ && s[k].2 == l;
                    if k < i {
                        assert(before.contains(l));
                    }
                }
            }
            i += 1;
        }
        assert(langs_for(s, wavelet@) =~= Set::new(
            |l: Seq<char>| exists|k: int| 0 <= k < self.subs.len() && (#[trigger] s[k]).0 == wavelet@ && s[k].2 == l,
        ));
        r
    }

    /// The connections that receive overlays of `wavelet` in `lang`.
    pub fn targets(&self, wavelet: &str, lang: &str) -> (r: Vec<u64>)
        ensures
            r@ == conns_for(self.subs_view(), wavelet@, lang@),
    {
        let ghost s = self.subs_view();
        let mut r: Vec<u64> = Vec::new();
        let mut i: usize = 0;
        assert(s.take(0) =~= Seq::<(Seq<char>, u64, Seq<char>)>::empty());
        while i < self.subs.len()
            invariant
                i <= self.subs.len(),
                s == self.subs_view(),
                r@ == conns_for(s.take(i as int), wavelet@, lang@),
            decreases self.subs.len() - i,
        {
            assert(s.take(i + 1).drop_last() =~= s.take(i as int));
            assert(s.take(i + 1).last() == s[i as int]);
            if str_eq(self.subs[i].0.as_str(), wavelet) && str_eq(self.subs[i].2.as_str(), lang) {
                r.push(self.subs[i].1);
            }
            i += 1;
        }
        assert(s.take(self.subs.len() as int) =~= s);
        r
    }

    /// The cached translation of content `hash` into `lang`.
    pub fn cached(&self, hash: u64, lang: &str) -> (r: Option<String>)
        ensures
            match r {
                Some(t) => cache_lookup(self.cache_view(), hash, lang@) == Some(t@),
                None => cache_lookup(self.cache_view(), hash, lang@) is None,
            },
    {
        let ghost v = self.cache_view();
        let mut i = self.cache.len();
        assert(v.take(i as int) =~= v);
        while i > 0
            invariant
                i <= self.cache.len(),
                v == self.cache_view(),
                cache_lookup(v, hash, lang@) == cache_lookup(v.take(i as int), hash, lang@),
            decreases i,
        {
            assert(v.take(i as int).last() == v[i - 1]);
            if self.cache[i - 1].0 == hash && str_eq(self.cache[i - 1].1.as_str(), lang) {
                return Some(self.cache[i - 1].2.as_str().to_owned());
            }
            assert(v.take(i as int).drop_last() =~= v.take(i - 1));
            i -= 1;
        }
        None
    }
}

impl<T: Translator> TranslationHub<T> {
    /// Translates the wavelet's blips, as (id, text), into every language
    /// it is read in, and returns the overlays to deliver, one per language
    /// with at least one translation. Cached texts cost nothing; a miss
    /// counts against the call budget and asks the provider only while
    /// the budget lasts; a failed or refused call leaves the blip out.
    pub fn translate_wavelet(&mut self, wavelet: &str, blips: &Vec<(String, String)>) -> (r: Vec<Delivery>)
        ensures
            final(self).subs_view() == old(self).subs_view(),
            final(self).has_translator() == old(self).has_translator(),
            final(self).cap_spec() == old(self).cap_spec(),
            old(self).cache_view().len() <= final(self).cache_view().len(),
            final(self).cache_view().take(old(self).cache_view().len() as int) == old(self).cache_view(),
            !old(self).has_translator() ==> r.len() == 0 && final(self).cache_view() == old(self).cache_view()
                && final(self).calls_spec() == old(self).calls_spec(),
            all_cached(wavelet@, blips@, old(self).subs_view(), old(self).cache_view()) ==> final(self).calls_spec()
                == old(self).calls_spec(),
            forall|k: int|
                0 <= k < r.len() ==> delivery_ok(
                    #[trigger] r@[k],
                    wavelet@,
                    blips@,
                    final(self).subs_view(),
                    final(self).cache_view(),
                ),
            old(self).asked_view().len() <= final(self).asked_view().len(),
            final(self).asked_view().take(old(self).asked_view().len() as int) == old(self).asked_view(),
            ({
                let new_calls = final(self).asked_view().skip(old(self).asked_view().len() as int);
                &&& forall|k: int| 0 <= k < new_calls.len() ==> (#[trigger] new_calls[k]).1 == conversation(blips@)
                &&& !old(self).has_translator() ==> new_calls.len() == 0
                &&& old(self).has_translator() ==> wave_result(
                    langs_for(old(self).subs_view(), wavelet@),
                    blip_views(blips@),
                    old(self).cap_spec(),
                    old(self).cache_view(),
                    old(self).calls_spec(),
                    new_calls,
                    deliveries_view(r@),
                    final(self).cache_view(),
                    final(self).calls_spec(),
                )
            }),
    {
        let mut out: Vec<Delivery> = Vec::new();
        let ghost log0 = self.asked@;
        if self.translator.is_none() {
            assert(self.asked@.skip(log0.len() as int) =~= Seq::<(Seq<char>, Seq<char>, Seq<char>, Option<Seq<char>>)>::empty());
            return out;
        }
        let langs = self.languages_for(wavelet);
        let ghost lv = string_views(langs@);
        let ghost bv = blip_views(blips@);
        let ghost cap = self.call_cap;
        if langs.len() == 0 {
            proof {
                let nc = self.asked@.skip(log0.len() as int);
                assert(nc =~= Seq::<(Seq<char>, Seq<char>, Seq<char>, Option<Seq<char>>)>::empty());
                assert(deliveries_view(out@) =~= Seq::empty());
                assert(asks_of(nc) =~= Seq::empty());
                assert(wave_pass(lv, bv, cap, answers_of(nc), self.cache_view(), self.calls) == (
                    deliveries_view(out@),
                    self.cache_view(),
                    self.calls,
                    asks_of(nc),
                ));
                assert(wave_result(
                    langs_for(self.subs_view(), wavelet@),
                    bv,
                    cap,
                    self.cache_view(),
                    self.calls,
                    nc,
                    deliveries_view(out@),
                    self.cache_view(),
                    self.calls,
                ));
            }
            return out;
        }
        let context = join_texts(blips);
        let ghost s0 = self.subs_view();
        let ghost c0 = self.cache_view();
        let ghost calls0 = self.calls;
        let ghost ac = all_cached(wavelet@, blips@, s0, c0);
        let ghost mut nl: Seq<(Seq<char>, Seq<char>, Seq<char>, Option<Seq<char>>)> = Seq::empty();
        assert(self.asked@ =~= log0 + nl);
        assert(lv.take(0) =~= Seq::<Seq<char>>::empty());
        assert(deliveries_view(out@) =~= Seq::empty());
        assert(asks_of(nl) =~= Seq::empty());
        let mut li: usize = 0;
        while li < langs.len()
            invariant
                li <= langs.len(),
                self.subs_view() == s0,
                self.translator is Some,
                self.call_cap == old(self).call_cap,
                string_views(langs@).to_set() == langs_for(s0, wavelet@),
                c0.len() <= self.cache_view().len(),
                self.cache_view().take(c0.len() as int) == c0,
                ac == all_cached(wavelet@, blips@, s0, c0),
                ac ==> self.calls == calls0 && self.cache_view() == c0,
                forall|k: int|
                    0 <= k < out.len() ==> delivery_ok(#[trigger] out@[k], wavelet@, blips@, s0, self.cache_view()),
                lv == string_views(langs@),
                bv == blip_views(blips@),
                cap == self.call_cap,
                context@ == conversation(blips@),
                self.asked@ == log0 + nl,
                forall|k: int| 0 <= k < nl.len() ==> (#[trigger] nl[k]).1 == conversation(blips@),
                wave_pass(lv.take(li as int), bv, cap, answers_of(nl), c0, calls0) == (
                    deliveries_view(out@),
                    self.cache_view(),
                    self.calls,
                    asks_of(nl),
                ),
            decreases langs.len() - li,
        {
            let lang = langs[li].as_str();
            assert(string_views(langs@)[li as int] == lang@);
            assert(langs_for(s0, wavelet@).contains(lang@));
            let mut entries: Vec<(String, String, bool)> = Vec::new();
            let mut j: usize = 0;
            let ghost out_before = out@;
            let ghost cache_before = self.cache_view();
            let ghost calls_before = self.calls;
            let ghost nl_before = nl;
            let ghost st0: PassState = (Seq::empty(), cache_before, calls_before, asks_of(nl));
            assert(bv.take(0) =~= Seq::<(Seq<char>, Seq<char>)>::empty());
            assert(entries_view(entries@) =~= Seq::empty());
            while j < blips.len()
                invariant
                    j <= blips.len(),
                    self.subs_view() == s0,
                    self.translator is Some,
                    self.call_cap == old(self).call_cap,
                    langs_for(s0, wavelet@).contains(lang@),
                    c0.len() <= cache_before.len() <= self.cache_view().len(),
                    self.cache_view().take(cache_before.len() as int) == cache_before,
                    cache_before.take(c0.len() as int) == c0,
                    ac == all_cached(wavelet@, blips@, s0, c0),
                    ac ==> self.calls == calls0 && self.cache_view() == c0 && cache_before == c0,
                    out@ == out_before,
                    forall|k: int|
                        0 <= k < out_before.len() ==> delivery_ok(
                            #[trigger] out_before[k],
                            wavelet@,
                            blips@,
                            s0,
                            cache_before,
                        ),
                    forall|k: int| 0 <= k < entries.len() ==> entry_ok(#[trigger] entries@[k], lang@, blips@, self.cache_view()),
                    forall|x: u64, y: Seq<char>|
                        #![trigger cache_lookup(self.cache_view(), x, y)]
                        cache_lookup(cache_before, x, y) is Some ==> cache_lookup(self.cache_view(), x, y)
                            == cache_lookup(cache_before, x, y),
                    lv == string_views(langs@),
                    lang@ == lv[li as int],
                    li < langs.len(),
                    bv == blip_views(blips@),
                    cap == self.call_cap,
                    context@ == conversation(blips@),
                    self.asked@ == log0 + nl,
                    nl_before.len() <= nl.len(),
                    nl.take(nl_before.len() as int) == nl_before,
                    forall|k: int| 0 <= k < nl.len() ==> (#[trigger] nl[k]).1 == conversation(blips@),
                    st0 == (Seq::<(Seq<char>, Seq<char>, bool)>::empty(), cache_before, calls_before, asks_of(nl_before)),
                    wave_pass(lv.take(li as int), bv, cap, answers_of(nl_before), c0, calls0) == (
                        deliveries_view(out_before),
                        cache_before,
                        calls_before,
                        asks_of(nl_before),
                    ),
                    lang_pass(bv.take(j as int), lang@, cap, answers_of(nl), st0) == (
                        entries_view(entries@),
                        self.cache_view(),
                        self.calls,
                        asks_of(nl),
                    ),
                decreases blips.len() - j,
            {
                let text = blips[j].1.as_str();
                let h = content_hash(text);
                let ghost c_now = self.cache_view();
                let ghost pre: PassState = (entries_view(entries@), self.cache_view(), self.calls, asks_of(nl));
                let ghost nl_j = nl;
                assert(bv[j as int] == (blips@[j as int].0@, text@));
                let found = self.cached(h, lang);
                let translated: Option<String> = match found {
                    Some(t) => Some(t),
                    None => {
                        proof {
                            if ac {
                                assert(cache_lookup(c0, default_hash_text(blips@[j as int].1@), lang@) is Some);
                            }
                        }
                        let over = self.calls >= self.call_cap;
                        self.calls = if self.calls < u64::MAX { self.calls + 1 } else { self.calls };
                        if over {
                            None
                        } else {
                            let answer = match &mut self.translator {
                                Some(tr) => tr.translate(lang, context.as_str(), text),
                                None => Err(String::new()),
                            };
                            let ghost ans: Option<Seq<char>> = match &answer {
                                Ok(t) => Some(t@),
                                Err(_) => None,
                            };
                            proof {
                                let e = (lang@, context@, text@, ans);
                                self.asked@ = self.asked@.push(e);
                                nl = nl.push(e);
                                assert(self.asked@ =~= log0 + nl);
                                assert(answers_of(nl) =~= answers_of(nl_j).push(ans));
                                assert(asks_of(nl) =~= asks_of(nl_j).push((lang@, text@)));
                            }
                            match answer {
                                Ok(t) => {
                                    let ghost tv = t@;
                                    self.cache.push((h, lang.to_owned(), t.as_str().to_owned()));
                                    proof {
                                        assert(self.cache_view() =~= c_now.push((h, lang@, tv)));
                                        lemma_lookup_push(c_now, h, lang@, tv, h, lang@);
                                        assert forall|x: u64, y: Seq<char>|
                                            #![trigger cache_lookup(self.cache_view(), x, y)]
                                            cache_lookup(cache_before, x, y) is Some implies cache_lookup(
                                                self.cache_view(),
                                                x,
                                                y,
                                            ) == cache_lookup(cache_before, x, y) by {
                                            lemma_lookup_push(c_now, h, lang@, tv, x, y);
                                        }
                                        assert forall|k: int| 0 <= k < entries.len() implies entry_ok(
                                            #[trigger] entries@[k],
                                            lang@,
                                            blips@,
                                            self.cache_view(),
                                        ) by {
                                            let e = entries@[k];
                                            let jj = choose|jj: int|
                                                0 <= jj < blips@.len() && (#[trigger] blips@[jj]).0@ == e.0@
                                                    && cache_lookup(c_now, default_hash_text(blips@[jj].1@), lang@)
                                                    == Some(e.1@);
                                            lemma_lookup_push(c_now, h, lang@, tv, default_hash_text(blips@[jj].1@), lang@);
                                        }
                                        assert(self.cache_view().take(cache_before.len() as int) =~= cache_before);
                                    }
                                    Some(t)
                                },
                                Err(_) => None,
                            }
                        }
                    },
                };
                match translated {
                    Some(t) => {
                        assert(cache_lookup(self.cache_view(), default_hash_text(blips@[j as int].1@), lang@) == Some(t@));
                        let ghost before = entries@;
                        entries.push((blips[j].0.as_str().to_owned(), t, false));
                        assert forall|k: int| 0 <= k < entries.len() implies entry_ok(
                            #[trigger] entries@[k],
                            lang@,
                            blips@,
                            self.cache_view(),
                        ) by {
                            if k < before.len() {
                                assert(entries@[k] == before[k]);
                            } else {
                                assert(entries@[k].0@ == blips@[j as int].0@);
                            }
                        }
                    },
                    None => {},
                }
                proof {
                    let a0 = answers_of(nl_j);
                    let a1 = answers_of(nl);
                    assert(a0.len() == nl_j.len());
                    assert(forall|i: int| 0 <= i < a0.len() ==> a0[i] == a1[i]) by {
                        assert forall|i: int| 0 <= i < a0.len() implies a0[i] == a1[i] by {
                            assert(nl[i] == nl_j[i]);
                        }
                    }
                    assert(pre.3.len() == a0.len());
                    lemma_lang_pass_answers(bv.take(j as int), lang@, cap, a0, a1, st0);
                    assert(bv.take(j + 1).drop_last() =~= bv.take(j as int));
                    assert(bv.take(j + 1).last() == bv[j as int]);
                    assert(nl.take(nl_before.len() as int) =~= nl_before);
                    assert(lang_pass(bv.take(j + 1), lang@, cap, a1, st0) == pass_step(pre, bv[j as int], lang@, cap, a1));
                    assert(entries_view(entries@) =~= pass_step(pre, bv[j as int], lang@, cap, a1).0);
                }
                j += 1;
            }
            proof {
                assert forall|k: int| 0 <= k < out_before.len() implies delivery_ok(
                    #[trigger] out_before[k],
                    wavelet@,
                    blips@,
                    s0,
                    self.cache_view(),
                ) by {
                    let d = out_before[k];
                    assert(delivery_ok(d, wavelet@, blips@, s0, cache_before));
                    assert forall|m: int| 0 <= m < d.entries.len() implies entry_ok(
                        #[trigger] d.entries@[m],
                        d.lang@,
                        blips@,
                        self.cache_view(),
                    ) by {
                        let e = d.entries@[m];
                        assert(entry_ok(e, d.lang@, blips@, cache_before));
                        let jj = choose|jj: int|
                            0 <= jj < blips@.len() && (#[trigger] blips@[jj]).0@ == e.0@ && cache_lookup(
                                cache_before,
                                default_hash_text(blips@[jj].1@),
                                d.lang@,
                            ) == Some(e.1@);
                        assert(cache_lookup(self.cache_view(), default_hash_text(blips@[jj].1@), d.lang@) == Some(e.1@));
                    }
                }
                assert(self.cache_view().take(c0.len() as int) =~= c0) by {
                    assert(self.cache_view().take(cache_before.len() as int) == cache_before);
                    assert(cache_before.take(c0.len() as int) == c0);
                }
            }
            proof {
                let a0 = answers_of(nl_before);
                let a1 = answers_of(nl);
                assert(forall|i: int| 0 <= i < a0.len() ==> a0[i] == a1[i]) by {
                    assert forall|i: int| 0 <= i < a0.len() implies a0[i] == a1[i] by {
                        assert(nl.take(nl_before.len() as int)[i] == nl_before[i]);
                    }
                }
                lemma_wave_pass_answers(lv.take(li as int), bv, cap, a0, a1, c0, calls0);
                assert(lv.take(li + 1).drop_last() =~= lv.take(li as int));
                assert(lv.take(li + 1).last() == lang@);
                assert(bv.take(blips.len() as int) =~= bv);
            }
            if entries.len() > 0 {
                let conns = self.targets(wavelet, lang);
                let frame = translation_frame(wavelet, lang, &entries);
                let ghost ev = entries_view(entries@);
                let d = Delivery { lang: lang.to_owned(), conns, entries, frame };
                assert(delivery_ok(d, wavelet@, blips@, s0, self.cache_view()));
                let ghost before = out@;
                out.push(d);
                assert(deliveries_view(out@) =~= deliveries_view(before).push((lang@, ev)));
            }
            li += 1;
        }
        proof {
            assert(lv.take(langs.len() as int) =~= lv);
            assert(self.asked@.skip(log0.len() as int) =~= nl);
            assert(wave_pass(lv, bv, cap, answers_of(nl), c0, calls0) == (
                deliveries_view(out@),
                self.cache_view(),
                self.calls,
                asks_of(nl),
            ));
            assert(wave_result(
                langs_for(s0, wavelet@),
                bv,
                cap,
                c0,
                calls0,
                nl,
                deliveries_view(out@),
                self.cache_view(),
                self.calls,
            ));
        }
        out
    }
}

/// The blip texts one per line: the conversation handed to the provider.
pub open spec fn conversation(blips: Seq<(String, String)>) -> Seq<char>
    decreases blips.len(),
{
    if blips.len() == 0 {
        Seq::empty()
    } else if blips.len() == 1 {
        blips[0].1@
    } else {
        conversation(blips.drop_last()) + seq!['\n'] + blips.last().1@
    }
}

pub fn join_texts(blips: &Vec<(String, String)>) -> (r: String)
    ensures
        r@ == conversation(blips@),
{
    let mut r = String::new();
    let mut i: usize = 0;
    while i < blips.len()
        invariant
            i <= blips.len(),
            r@ == conversation(blips@.take(i as int)),
        decreases blips.len() - i,
    {
        assert(blips@.take(i + 1).drop_last() =~= blips@.take(i as int));
        assert(blips@.take(i + 1).last() == blips@[i as int]);
        if i > 0 {
            push_char(&mut r, '\n');
        }
        r.append(blips[i].1.as_str());
        assert(i == 0 ==> blips@.take(i + 1)[0] == blips@[0]);
        i += 1;
    }
    assert(blips@.take(blips.len() as int) =~= blips@);
    r
}

/// A delivered overlay is one of the wavelet's languages, goes to exactly
/// the connections reading it in that language, and carries, for blips of
/// the wavelet, their texts' cached translations.
pub open spec fn delivery_ok(
    d: Delivery,
    wavelet: Seq<char>,
    blips: Seq<(String, String)>,
    subs: Seq<(Seq<char>, u64, Seq<char>)>,
    cache: Seq<(u64, Seq<char>, Seq<char>)>,
) -> bool {
    &&& langs_for(subs, wavelet).contains(d.lang@)
    &&& d.conns@ == conns_for(subs, wavelet, d.lang@)
    &&& d.entries.len() > 0
    &&& forall|k: int| 0 <= k < d.entries.len() ==> entry_ok(#[trigger] d.entries@[k], d.lang@, blips, cache)
    &&& d.frame@ == translation_frame_of(wavelet, d.lang@, d.entries@.map_values(|e: (String, String, bool)| entry_view(e)))
}

pub open spec fn entry_ok(e: (String, String, bool), lang: Seq<char>, blips: Seq<(String, String)>, cache: Seq<(u64, Seq<char>, Seq<char>)>) -> bool {
    &&& !e.2
    &&& exists|j: int|
        0 <= j < blips.len() && (#[trigger] blips[j]).0@ == e.0@ && cache_lookup(cache, default_hash_text(blips[j].1@), lang)
            == Some(e.1@)
}

/// Every blip text is cached in every language the wavelet is read in.
pub open spec fn all_cached(
    wavelet: Seq<char>,
    blips: Seq<(String, String)>,
    subs: Seq<(Seq<char>, u64, Seq<char>)>,
    cache: Seq<(u64, Seq<char>, Seq<char>)>,
) -> bool {
    forall|l: Seq<char>, j: int|
        langs_for(subs, wavelet).contains(l) && 0 <= j < blips.len() ==> (#[trigger] cache_lookup(
            cache,
            default_hash_text((#[trigger] blips[j]).1@),
            l,
        )) is Some
}

proof fn lemma_lookup_push(c: Seq<(u64, Seq<char>, Seq<char>)>, h: u64, l: Seq<char>, t: Seq<char>, h2: u64, l2: Seq<char>)
    requires
        cache_lookup(c, h, l) is None,
    ensures
        cache_lookup(c.push((h, l, t)), h, l) == Some(t),
        !(h2 == h && l2 == l) ==> cache_lookup(c.push((h, l, t)), h2, l2) == cache_lookup(c, h2, l2),
{
    assert(c.push((h, l, t)).drop_last() =~= c);
}

/// A translation subscription is accepted on a wave that exists, that the
/// user is on, that opted in to translation, on a server with a provider.
pub fn translate_gate(wavelet: &str, meta: Option<&WaveMeta>, user: &ParticipantId, available: bool) -> (r: Result<(), Vec<u8>>)
    ensures
        match meta {
            None => r matches Err(f) && f@ == error_frame_of(wavelet@, "not-found"@, "no such wave"@),
            Some(m) => if !on_wave(m.participants@, participant_text(user@)) {
                r matches Err(f) && f@ == error_frame_of(wavelet@, "not-participant"@, "not on this wave"@)
            } else if !m.translation_enabled {
                r matches Err(f) && f@ == error_frame_of(
                    wavelet@,
                    "translation-disabled"@,
                    "translation is not enabled on this wave"@,
                )
            } else if !available {
                r matches Err(f) && f@ == error_frame_of(
                    wavelet@,
                    "translation-unavailable"@,
                    "no translation provider configured"@,
                )
            } else {
                r is Ok
            },
        },
{
    match meta {
        None => Err(error_frame(wavelet, "not-found", "no such wave")),
        Some(m) => {
            let me = user.to_string();
            if !is_participant(&m.participants, me.as_str()) {
                Err(error_frame(wavelet, "not-participant", "not on this wave"))
            } else if !m.translation_enabled {
                Err(error_frame(wavelet, "translation-disabled", "translation is not enabled on this wave"))
            } else if !available {
                Err(error_frame(wavelet, "translation-unavailable", "no translation provider configured"))
            } else {
                Ok(())
            }
        },
    }
}

/// The frame of a translation overlay.
pub fn translation_frame(wavelet: &str, lang: &str, entries: &Vec<(String, String, bool)>) -> (f: Vec<u8>)
    ensures
        f@ == translation_frame_of(wavelet@, lang@, entries@.map_values(|e: (String, String, bool)| entry_view(e))),
{
    Envelope::new(Channel::Translation, encode_translation(wavelet, lang, entries)).encode_frame()
}

/// Overlays go exactly to the readers of that wavelet in that language:
/// every target of (wavelet, lang) holds a subscription to that very
/// wavelet in that very language, and every such subscription's connection
/// is a target.
pub proof fn law_targets_are_the_subscribers(s: Seq<(Seq<char>, u64, Seq<char>)>, wavelet: Seq<char>, lang: Seq<char>)
    ensures
        forall|k: int|
            0 <= k < conns_for(s, wavelet, lang).len() ==> exists|i: int|
                0 <= i < s.len() && s[i] == (wavelet, #[trigger] conns_for(s, wavelet, lang)[k], lang),
        forall|i: int|
            0 <= i < s.len() && (#[trigger] s[i]).0 == wavelet && s[i].2 == lang ==> conns_for(s, wavelet, lang).contains(
                s[i].1,
            ),
    decreases s.len(),
{
    if s.len() > 0 {
        let t = s.drop_last();
        law_targets_are_the_subscribers(t, wavelet, lang);
        let r = conns_for(t, wavelet, lang);
        assert forall|k: int| 0 <= k < conns_for(s, wavelet, lang).len() implies exists|i: int|
            0 <= i < s.len() && s[i] == (wavelet, #[trigger] conns_for(s, wavelet, lang)[k], lang) by {
            if k < r.len() {
                assert(conns_for(s, wavelet, lang)[k] == r[k]);
                let i = choose|i: int| 0 <= i < t.len() && t[i] == (wavelet, #[trigger] r[k], lang);
                assert(s[i] == t[i]);
            } else {
                assert(s[s.len() - 1] == s.last());
            }
        }
        assert forall|i: int| 0 <= i < s.len() && (#[trigger] s[i]).0 == wavelet && s[i].2 == lang implies conns_for(
            s,
            wavelet,
            lang,
        ).contains(s[i].1) by {
            if i < t.len() {
                assert(t[i] == s[i]);
                assert(r.contains(s[i].1));
                let j = choose|j: int| 0 <= j < r.len() && r[j] == s[i].1;
                if s.last().0 == wavelet && s.last().2 == lang {
                    assert(conns_for(s, wavelet, lang)[j] == r[j]);
                }
            } else {
                assert(s[i] == s.last());
                assert(conns_for(s, wavelet, lang)[r.len() as int] == s[i].1);
            }
        }
    }
}

} // verus!
