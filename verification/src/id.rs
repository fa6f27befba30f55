//! Federation-qualified identifiers.
//!
//! Serialized forms:
//! - participant: `local@domain`
//! - wave:        `domain/wave-id`
//! - wavelet:     `domain/wavelet-id`
//! - wavelet name (globally unique wavelet): `wave-domain/wave-id/wavelet-id`
//!   when the wave and the wavelet share a domain, else
//!   `wave-domain/wave-id/wavelet-domain/wavelet-id`.

use vstd::prelude::*;
use crate::text::{chars_of, has_char, str_eq, lemma_split_concat, lemma_split_len_pos, lemma_split_no_sep, push_char, split_chars, split_on, string_of};

verus! {

/// Why an identifier was refused.
#[derive(Debug, PartialEq, Eq)]
pub enum IdError {
    /// An empty identifier component.
    Empty,
    /// A character not allowed in a local part or id token.
    InvalidChar(char),
    /// The text does not have the expected shape.
    Malformed { expected: &'static str, got: String },
    /// The domain is not DNS-name shaped.
    InvalidDomain(String),
}

/// The mathematical content of an [`IdError`].
pub enum IdFault {
    Empty,
    InvalidChar(char),
    Malformed(Seq<char>, Seq<char>),
    InvalidDomain(Seq<char>),
}

impl View for IdError {
    type V = IdFault;

    open spec fn view(&self) -> IdFault {
        match self {
            IdError::Empty => IdFault::Empty,
            IdError::InvalidChar(c) => IdFault::InvalidChar(*c),
            IdError::Malformed { expected, got } => IdFault::Malformed(expected@, got@),
            IdError::InvalidDomain(d) => IdFault::InvalidDomain(d@),
        }
    }
}

/// `format!("{:?}", s)` for a string: quoted and escaped as Rust writes it.
pub uninterp spec fn debug_text(s: Seq<char>) -> Seq<char>;

/// `format!("{:?}", c)` for a character.
pub uninterp spec fn debug_char_text(c: char) -> Seq<char>;

/// std's `Debug` rendering of a string (`format!("{s:?}")`).
#[verifier::external_body]
pub(crate) fn debug_str(s: &str) -> (r: String)
    ensures
        r@ == debug_text(s@),
{
    format!("{s:?}")
}

/// std's `Debug` rendering of a character (`format!("{c:?}")`).
#[verifier::external_body]
fn debug_char(c: char) -> (r: String)
    ensures
        r@ == debug_char_text(c),
{
    format!("{c:?}")
}

/// The message of an identifier error.
pub open spec fn id_error_text(e: IdFault) -> Seq<char> {
    match e {
        IdFault::Empty => "empty identifier component"@,
        IdFault::InvalidChar(c) => "invalid character "@ + debug_char_text(c) + " in identifier component"@,
        IdFault::Malformed(expected, got) => "malformed identifier: expected "@ + expected + ", got "@
            + debug_text(got),
        IdFault::InvalidDomain(d) => "invalid domain: "@ + debug_text(d),
    }
}

impl IdError {
    /// The error's message.
    pub fn message(&self) -> (r: String)
        ensures
            r@ == id_error_text(self@),
    {
        match self {
            IdError::Empty => "empty identifier component".to_owned(),
            IdError::InvalidChar(c) => {
                let mut r = "invalid character ".to_owned();
                let d = debug_char(*c);
                r.append(d.as_str());
                r.append(" in identifier component");
                r
            },
            IdError::Malformed { expected, got } => {
                let mut r = "malformed identifier: expected ".to_owned();
                r.append(expected);
                r.append(", got ");
                let d = debug_str(got.as_str());
                r.append(d.as_str());
                r
            },
            IdError::InvalidDomain(d) => {
                let mut r = "invalid domain: ".to_owned();
                let q = debug_str(d.as_str());
                r.append(q.as_str());
                r
            },
        }
    }
}

// ---------------------------------------------------------------------------
// Character classes and validity
// ---------------------------------------------------------------------------

pub open spec fn is_ascii_alnum(c: char) -> bool {
    ('0' <= c && c <= '9') || ('a' <= c && c <= 'z') || ('A' <= c && c <= 'Z')
}

/// Characters allowed in local parts and wave/wavelet id tokens.
pub open spec fn is_token_char(c: char) -> bool {
    is_ascii_alnum(c) || c == '.' || c == '-' || c == '_' || c == '+' || c == '~'
}

/// A non-empty string of token characters.
pub open spec fn valid_token(s: Seq<char>) -> bool {
    s.len() > 0 && forall|i: int| 0 <= i < s.len() ==> is_token_char(#[trigger] s[i])
}

/// The first character of `s` that is not a token character.
pub open spec fn first_non_token(s: Seq<char>) -> Option<char>
    decreases s.len(),
{
    if s.len() == 0 {
        None
    } else if !is_token_char(s[0]) {
        Some(s[0])
    } else {
        first_non_token(s.drop_first())
    }
}

/// What is wrong with `s` as a token, if anything.
pub open spec fn token_fault(s: Seq<char>) -> Option<IdFault> {
    if s.len() == 0 {
        Some(IdFault::Empty)
    } else {
        match first_non_token(s) {
            Some(c) => Some(IdFault::InvalidChar(c)),
            None => None,
        }
    }
}

/// A DNS label: 1 to 63 alphanumerics or hyphens, not starting or ending
/// with a hyphen.
pub open spec fn valid_label(l: Seq<char>) -> bool {
    &&& 0 < l.len() <= 63
    &&& l[0] != '-'
    &&& l.last() != '-'
    &&& forall|i: int| 0 <= i < l.len() ==> (is_ascii_alnum(#[trigger] l[i]) || l[i] == '-')
}

/// A DNS-name-shaped domain: at most 253 characters, dot-separated valid labels.
pub open spec fn valid_domain(s: Seq<char>) -> bool {
    &&& 0 < s.len() <= 253
    &&& forall|k: int|
        0 <= k < split_on(s, '.').len() ==> valid_label(#[trigger] split_on(s, '.')[k])
}

/// ASCII lower-casing of one character (`char::to_ascii_lowercase`).
pub open spec fn ascii_lower(c: char) -> char {
    if 'A' <= c && c <= 'Z' {
        ((c as u32) + 32) as char
    } else {
        c
    }
}

/// ASCII lower-casing of a string (`str::to_ascii_lowercase`).
pub open spec fn lower(s: Seq<char>) -> Seq<char> {
    s.map_values(|c: char| ascii_lower(c))
}

// ---------------------------------------------------------------------------
// Constructors and parsers, as mathematics
// ---------------------------------------------------------------------------

/// `local@domain` from its parts: the local part is validated first, then
/// the domain; both are stored lower-cased.
pub open spec fn spec_participant(local: Seq<char>, domain: Seq<char>) -> Result<
    (Seq<char>, Seq<char>),
    IdFault,
> {
    match token_fault(local) {
        Some(f) => Err(f),
        None => if valid_domain(domain) {
            Ok((lower(local), lower(domain)))
        } else {
            Err(IdFault::InvalidDomain(domain))
        },
    }
}

/// `domain/id` from its parts (waves and wavelets alike): the domain is
/// validated first, then the id; only the domain is lower-cased.
pub open spec fn spec_domain_id(domain: Seq<char>, id: Seq<char>) -> Result<
    (Seq<char>, Seq<char>),
    IdFault,
> {
    if !valid_domain(domain) {
        Err(IdFault::InvalidDomain(domain))
    } else {
        match token_fault(id) {
            Some(f) => Err(f),
            None => Ok((lower(domain), id)),
        }
    }
}

/// Parsing `local@domain`: exactly one `@`.
pub open spec fn parse_participant(s: Seq<char>) -> Result<(Seq<char>, Seq<char>), IdFault> {
    let parts = split_on(s, '@');
    if parts.len() == 2 {
        spec_participant(parts[0], parts[1])
    } else {
        Err(IdFault::Malformed("local@domain"@, s))
    }
}

/// Parsing `domain/wave-id`: exactly one `/`.
pub open spec fn parse_wave_id(s: Seq<char>) -> Result<(Seq<char>, Seq<char>), IdFault> {
    let parts = split_on(s, '/');
    if parts.len() == 2 {
        spec_domain_id(parts[0], parts[1])
    } else {
        Err(IdFault::Malformed("domain/wave-id"@, s))
    }
}

/// Parsing a wavelet name: three `/`-separated parts (the wavelet shares the
/// wave's domain) or four (it names its own).
pub open spec fn parse_wavelet_name(s: Seq<char>) -> Result<
    ((Seq<char>, Seq<char>), (Seq<char>, Seq<char>)),
    IdFault,
> {
    let p = split_on(s, '/');
    if p.len() == 3 {
        match spec_domain_id(p[0], p[1]) {
            Err(e) => Err(e),
            Ok(w) => match spec_domain_id(p[0], p[2]) {
                Err(e) => Err(e),
                Ok(l) => Ok((w, l)),
            },
        }
    } else if p.len() == 4 {
        match spec_domain_id(p[0], p[1]) {
            Err(e) => Err(e),
            Ok(w) => match spec_domain_id(p[2], p[3]) {
                Err(e) => Err(e),
                Ok(l) => Ok((w, l)),
            },
        }
    } else {
        Err(IdFault::Malformed("wave-domain/wave-id[/wavelet-domain]/wavelet-id"@, s))
    }
}

/// `local@domain`.
pub open spec fn participant_text(p: (Seq<char>, Seq<char>)) -> Seq<char> {
    p.0 + seq!['@'] + p.1
}

/// `domain/id`.
pub open spec fn domain_id_text(p: (Seq<char>, Seq<char>)) -> Seq<char> {
    p.0 + seq!['/'] + p.1
}

/// The wavelet name's text: compact when both domains agree.
pub open spec fn wavelet_name_text(n: ((Seq<char>, Seq<char>), (Seq<char>, Seq<char>))) -> Seq<
    char,
> {
    if n.0.0 == n.1.0 {
        domain_id_text(n.0) + seq!['/'] + n.1.1
    } else {
        domain_id_text(n.0) + seq!['/'] + domain_id_text(n.1)
    }
}

/// The view of a `Result` of viewable values.
pub open spec fn result_view<T: View, E: View>(r: Result<T, E>) -> Result<T::V, E::V> {
    match r {
        Ok(t) => Ok(t@),
        Err(e) => Err(e@),
    }
}

// ---------------------------------------------------------------------------
// Executable validation
// ---------------------------------------------------------------------------

fn is_ascii_alnum_exec(c: char) -> (b: bool)
    ensures
        b == is_ascii_alnum(c),
{
    ('0' <= c && c <= '9') || ('a' <= c && c <= 'z') || ('A' <= c && c <= 'Z')
}

fn is_token_char_exec(c: char) -> (b: bool)
    ensures
        b == is_token_char(c),
{
    is_ascii_alnum_exec(c) || c == '.' || c == '-' || c == '_' || c == '+' || c == '~'
}

proof fn lemma_first_non_token_none(s: Seq<char>)
    ensures
        first_non_token(s) is None <==> (forall|i: int|
            0 <= i < s.len() ==> is_token_char(#[trigger] s[i])),
    decreases s.len(),
{
    if s.len() > 0 {
        lemma_first_non_token_none(s.drop_first());
        if first_non_token(s) is None {
            assert forall|i: int| 0 <= i < s.len() implies is_token_char(#[trigger] s[i]) by {
                if i > 0 {
                    assert(s[i] == s.drop_first()[i - 1]);
                }
            }
        } else if is_token_char(s[0]) {
            let j = choose|j: int|
                0 <= j < s.drop_first().len() && !is_token_char(#[trigger] s.drop_first()[j]);
            assert(s[j + 1] == s.drop_first()[j]);
        }
    }
}

/// `token_fault(s)` is `None` exactly for valid tokens.
pub proof fn lemma_token_fault_valid(s: Seq<char>)
    ensures
        token_fault(s) is None <==> valid_token(s),
{
    lemma_first_non_token_none(s);
}

fn token_check(cs: &[char]) -> (r: Result<(), IdError>)
    ensures
        match r {
            Ok(_) => token_fault(cs@) is None,
            Err(e) => token_fault(cs@) == Some(e@),
        },
{
    if cs.len() == 0 {
        return Err(IdError::Empty);
    }
    let mut i: usize = 0;
    assert(cs@.skip(0) =~= cs@);
    while i < cs.len()
        invariant
            i <= cs.len(),
            cs.len() > 0,
            first_non_token(cs@) == first_non_token(cs@.skip(i as int)),
        decreases cs.len() - i,
    {
        let c = cs[i];
        assert(cs@.skip(i as int)[0] == c);
        if !is_token_char_exec(c) {
            return Err(IdError::InvalidChar(c));
        }
        assert(cs@.skip(i as int).drop_first() =~= cs@.skip(i + 1));
        i += 1;
    }
    assert(cs@.skip(cs.len() as int) =~= Seq::<char>::empty());
    Ok(())
}

/// Checks that `s` is a non-empty string of characters allowed in local
/// parts and id tokens (ASCII alphanumerics and `. - _ + ~`).
pub fn validate_token(s: &str) -> (r: Result<(), IdError>)
    ensures
        match r {
            Ok(_) => token_fault(s@) is None && valid_token(s@),
            Err(e) => token_fault(s@) == Some(e@),
        },
{
    proof { lemma_token_fault_valid(s@); }
    token_check(chars_of(s).as_slice())
}

fn label_check(l: &[char]) -> (b: bool)
    ensures
        b == valid_label(l@),
{
    let n = l.len();
    if n == 0 || n > 63 || l[0] == '-' || l[n - 1] == '-' {
        return false;
    }
    let mut i: usize = 0;
    while i < n
        invariant
            i <= n,
            n == l.len(),
            forall|j: int| 0 <= j < i ==> (is_ascii_alnum(#[trigger] l@[j]) || l@[j] == '-'),
        decreases n - i,
    {
        if !(is_ascii_alnum_exec(l[i]) || l[i] == '-') {
            return false;
        }
        i += 1;
    }
    true
}

fn domain_check(cs: &[char]) -> (b: bool)
    ensures
        b == valid_domain(cs@),
{
    if cs.len() == 0 || cs.len() > 253 {
        return false;
    }
    let labels = split_chars(cs, '.');
    let ghost pieces = split_on(cs@, '.');
    assert(labels@.map_values(|x: Vec<char>| x@) == pieces);
    let mut k: usize = 0;
    while k < labels.len()
        invariant
            k <= labels.len(),
            labels@.map_values(|x: Vec<char>| x@) == pieces,
            pieces == split_on(cs@, '.'),
            forall|j: int| 0 <= j < k ==> valid_label(#[trigger] pieces[j]),
        decreases labels.len() - k,
    {
        assert(pieces[k as int] == labels@[k as int]@);
        if !label_check(labels[k].as_slice()) {
            return false;
        }
        k += 1;
    }
    true
}

/// Checks that `s` is DNS-name shaped: dot-separated labels of ASCII
/// alphanumerics and hyphens.
pub fn validate_domain(s: &str) -> (r: Result<(), IdError>)
    ensures
        match r {
            Ok(_) => valid_domain(s@),
            Err(e) => !valid_domain(s@) && e@ == IdFault::InvalidDomain(s@),
        },
{
    let cs = chars_of(s);
    if domain_check(cs.as_slice()) {
        Ok(())
    } else {
        Err(IdError::InvalidDomain(s.to_owned()))
    }
}

fn ascii_lower_exec(c: char) -> (r: char)
    ensures
        r == ascii_lower(c),
{
    if 'A' <= c && c <= 'Z' {
        ((c as u8) + 32) as char
    } else {
        c
    }
}

pub(crate) fn lower_string(cs: &[char]) -> (s: String)
    ensures
        s@ == lower(cs@),
{
    let mut s = String::new();
    let mut i: usize = 0;
    while i < cs.len()
        invariant
            i <= cs.len(),
            s@ == lower(cs@.take(i as int)),
        decreases cs.len() - i,
    {
        push_char(&mut s, ascii_lower_exec(cs[i]));
        assert(lower(cs@.take(i + 1)) =~= lower(cs@.take(i as int)).push(ascii_lower(cs@[i as int])));
        i += 1;
    }
    assert(cs@.take(cs.len() as int) =~= cs@);
    s
}

fn copy_string(s: &String) -> (r: String)
    ensures
        r@ == s@,
{
    s.as_str().to_owned()
}

// ---------------------------------------------------------------------------
// The identifier types
// ---------------------------------------------------------------------------

/// A user or agent address: `local@domain`.
#[derive(Debug, PartialEq, Eq, Hash, PartialOrd, Ord)]
pub struct ParticipantId {
    local: String,
    domain: String,
}

impl Clone for ParticipantId {
    fn clone(&self) -> (r: Self)
        ensures
            r@ == self@,
    {
        proof { use_type_invariant(self); }
        ParticipantId { local: copy_string(&self.local), domain: copy_string(&self.domain) }
    }
}

impl View for ParticipantId {
    type V = (Seq<char>, Seq<char>);

    closed spec fn view(&self) -> (Seq<char>, Seq<char>) {
        (self.local@, self.domain@)
    }
}

impl ParticipantId {
    /// A participant is a pair some pair of parts validates to.
    #[verifier::type_invariant]
    closed spec fn valid(self) -> bool {
        spec_participant(self@.0, self@.1) == Ok::<_, IdFault>(self@)
    }

    /// Validates both parts and stores them lower-cased.
    pub fn new(local: &str, domain: &str) -> (r: Result<Self, IdError>)
        ensures
            result_view(r) == spec_participant(local@, domain@),
    {
        match validate_token(local) {
            Err(e) => return Err(e),
            Ok(_) => {},
        }
        match validate_domain(domain) {
            Err(e) => return Err(e),
            Ok(_) => {},
        }
        let l = chars_of(local);
        let d = chars_of(domain);
        let lo = lower_string(l.as_slice());
        let dom = lower_string(d.as_slice());
        proof { lemma_participant_idem(local@, domain@); }
        Ok(ParticipantId { local: lo, domain: dom })
    }

    pub fn local(&self) -> (s: &str)
        ensures
            s@ == self@.0,
    {
        self.local.as_str()
    }

    pub fn domain(&self) -> (s: &str)
        ensures
            s@ == self@.1,
    {
        self.domain.as_str()
    }

    /// Parses `local@domain` (exactly one `@`).
    pub fn parse(s: &str) -> (r: Result<Self, IdError>)
        ensures
            result_view(r) == parse_participant(s@),
    {
        let cs = chars_of(s);
        let parts = split_chars(cs.as_slice(), '@');
        assert(parts@.map_values(|x: Vec<char>| x@) == split_on(s@, '@'));
        if parts.len() == 2 {
            assert(parts@[0]@ == split_on(s@, '@')[0]);
            assert(parts@[1]@ == split_on(s@, '@')[1]);
            let local = string_of(parts[0].as_slice());
            let domain = string_of(parts[1].as_slice());
            Self::new(local.as_str(), domain.as_str())
        } else {
            Err(IdError::Malformed { expected: "local@domain", got: s.to_owned() })
        }
    }

    /// The serialized form `local@domain`, which parses back to this
    /// participant.
    pub fn to_string(&self) -> (s: String)
        ensures
            s@ == participant_text(self@),
            parse_participant(s@) == Ok::<_, IdFault>(self@),
    {
        proof {
            use_type_invariant(self);
            law_participant_roundtrip(self@.0, self@.1);
        }
        let mut s = copy_string(&self.local);
        push_char(&mut s, '@');
        s.append(self.domain.as_str());
        s
    }
}

fn domain_id_new(domain: &str, id: &str) -> (r: Result<(String, String), IdError>)
    ensures
        match r {
            Ok(p) => spec_domain_id(domain@, id@) == Ok::<_, IdFault>((p.0@, p.1@)),
            Err(e) => spec_domain_id(domain@, id@) == Err::<(Seq<char>, Seq<char>), _>(e@),
        },
{
    match validate_domain(domain) {
        Err(e) => return Err(e),
        Ok(_) => {},
    }
    match validate_token(id) {
        Err(e) => return Err(e),
        Ok(_) => {},
    }
    let d = chars_of(domain);
    Ok((lower_string(d.as_slice()), id.to_owned()))
}

/// A wave identifier: `domain/wave-id`; the domain is the wave's home server.
#[derive(Debug, PartialEq, Eq, Hash, PartialOrd, Ord)]
pub struct WaveId {
    domain: String,
    id: String,
}

impl Clone for WaveId {
    fn clone(&self) -> (r: Self)
        ensures
            r@ == self@,
    {
        proof { use_type_invariant(self); }
        WaveId { domain: copy_string(&self.domain), id: copy_string(&self.id) }
    }
}

impl View for WaveId {
    type V = (Seq<char>, Seq<char>);

    closed spec fn view(&self) -> (Seq<char>, Seq<char>) {
        (self.domain@, self.id@)
    }
}

impl WaveId {
    /// A wave id is a pair some domain and id validate to.
    #[verifier::type_invariant]
    closed spec fn valid(self) -> bool {
        spec_domain_id(self@.0, self@.1) == Ok::<_, IdFault>(self@)
    }

    /// Validates the domain then the id; the domain is stored lower-cased.
    pub fn new(domain: &str, id: &str) -> (r: Result<Self, IdError>)
        ensures
            result_view(r) == spec_domain_id(domain@, id@),
    {
        match domain_id_new(domain, id) {
            Ok((d, i)) => {
                proof { lemma_domain_id_idem(domain@, id@); }
                Ok(WaveId { domain: d, id: i })
            },
            Err(e) => Err(e),
        }
    }

    pub fn domain(&self) -> (s: &str)
        ensures
            s@ == self@.0,
    {
        self.domain.as_str()
    }

    pub fn id(&self) -> (s: &str)
        ensures
            s@ == self@.1,
    {
        self.id.as_str()
    }

    /// Parses `domain/wave-id` (exactly one `/`).
    pub fn parse(s: &str) -> (r: Result<Self, IdError>)
        ensures
            result_view(r) == parse_wave_id(s@),
    {
        let cs = chars_of(s);
        let parts = split_chars(cs.as_slice(), '/');
        assert(parts@.map_values(|x: Vec<char>| x@) == split_on(s@, '/'));
        if parts.len() == 2 {
            assert(parts@[0]@ == split_on(s@, '/')[0]);
            assert(parts@[1]@ == split_on(s@, '/')[1]);
            let domain = string_of(parts[0].as_slice());
            let id = string_of(parts[1].as_slice());
            Self::new(domain.as_str(), id.as_str())
        } else {
            Err(IdError::Malformed { expected: "domain/wave-id", got: s.to_owned() })
        }
    }

    /// The serialized form `domain/wave-id`, which parses back to this id.
    pub fn to_string(&self) -> (s: String)
        ensures
            s@ == domain_id_text(self@),
            parse_wave_id(s@) == Ok::<_, IdFault>(self@),
    {
        proof {
            use_type_invariant(self);
            law_wave_id_roundtrip(self@.0, self@.1);
        }
        let mut s = copy_string(&self.domain);
        push_char(&mut s, '/');
        s.append(self.id.as_str());
        s
    }
}

/// A wavelet identifier: `domain/wavelet-id`; the domain is the wavelet's
/// home server, which may differ from the wave's.
#[derive(Debug, PartialEq, Eq, Hash, PartialOrd, Ord)]
pub struct WaveletId {
    domain: String,
    id: String,
}

impl Clone for WaveletId {
    fn clone(&self) -> (r: Self)
        ensures
            r@ == self@,
    {
        proof { use_type_invariant(self); }
        WaveletId { domain: copy_string(&self.domain), id: copy_string(&self.id) }
    }
}

impl View for WaveletId {
    type V = (Seq<char>, Seq<char>);

    closed spec fn view(&self) -> (Seq<char>, Seq<char>) {
        (self.domain@, self.id@)
    }
}

impl WaveletId {
    /// A wavelet id is a pair some domain and id validate to.
    #[verifier::type_invariant]
    closed spec fn valid(self) -> bool {
        spec_domain_id(self@.0, self@.1) == Ok::<_, IdFault>(self@)
    }

    /// Validates the domain then the id; the domain is stored lower-cased.
    pub fn new(domain: &str, id: &str) -> (r: Result<Self, IdError>)
        ensures
            result_view(r) == spec_domain_id(domain@, id@),
    {
        match domain_id_new(domain, id) {
            Ok((d, i)) => {
                proof { lemma_domain_id_idem(domain@, id@); }
                Ok(WaveletId { domain: d, id: i })
            },
            Err(e) => Err(e),
        }
    }

    pub fn domain(&self) -> (s: &str)
        ensures
            s@ == self@.0,
    {
        self.domain.as_str()
    }

    pub fn id(&self) -> (s: &str)
        ensures
            s@ == self@.1,
    {
        self.id.as_str()
    }

    /// The serialized form `domain/wavelet-id`.
    pub fn to_string(&self) -> (s: String)
        ensures
            s@ == domain_id_text(self@),
    {
        let mut s = copy_string(&self.domain);
        push_char(&mut s, '/');
        s.append(self.id.as_str());
        s
    }
}

/// The globally unique name of a wavelet: a (wave, wavelet) pair.
#[derive(Debug, Clone, PartialEq, Eq, Hash, PartialOrd, Ord)]
pub struct WaveletName {
    pub wave_id: WaveId,
    pub wavelet_id: WaveletId,
}

impl View for WaveletName {
    type V = ((Seq<char>, Seq<char>), (Seq<char>, Seq<char>));

    open spec fn view(&self) -> ((Seq<char>, Seq<char>), (Seq<char>, Seq<char>)) {
        (self.wave_id@, self.wavelet_id@)
    }
}

impl WaveletName {
    pub fn new(wave_id: WaveId, wavelet_id: WaveletId) -> (n: Self)
        ensures
            n@ == (wave_id@, wavelet_id@),
    {
        WaveletName { wave_id, wavelet_id }
    }

    /// Parses `wave-domain/wave-id[/wavelet-domain]/wavelet-id`.
    pub fn parse(s: &str) -> (r: Result<Self, IdError>)
        ensures
            result_view(r) == parse_wavelet_name(s@),
    {
        let cs = chars_of(s);
        let p = split_chars(cs.as_slice(), '/');
        let ghost sp = split_on(s@, '/');
        assert(p@.map_values(|x: Vec<char>| x@) == sp);
        if p.len() == 3 || p.len() == 4 {
            assert(p@[0]@ == sp[0] && p@[1]@ == sp[1] && p@[2]@ == sp[2]);
            let wd = string_of(p[0].as_slice());
            let wid = string_of(p[1].as_slice());
            let wave = match WaveId::new(wd.as_str(), wid.as_str()) {
                Ok(w) => w,
                Err(e) => return Err(e),
            };
            let wavelet = if p.len() == 3 {
                let lid = string_of(p[2].as_slice());
                match WaveletId::new(wd.as_str(), lid.as_str()) {
                    Ok(l) => l,
                    Err(e) => return Err(e),
                }
            } else {
                assert(p@[3]@ == sp[3]);
                let ld = string_of(p[2].as_slice());
                let lid = string_of(p[3].as_slice());
                match WaveletId::new(ld.as_str(), lid.as_str()) {
                    Ok(l) => l,
                    Err(e) => return Err(e),
                }
            };
            Ok(WaveletName { wave_id: wave, wavelet_id: wavelet })
        } else {
            Err(
                IdError::Malformed {
                    expected: "wave-domain/wave-id[/wavelet-domain]/wavelet-id",
                    got: s.to_owned(),
                },
            )
        }
    }

    /// The serialized form, compact when the wave and wavelet share a
    /// domain; it parses back to this name.
    pub fn to_string(&self) -> (s: String)
        ensures
            s@ == wavelet_name_text(self@),
            parse_wavelet_name(s@) == Ok::<_, IdFault>(self@),
    {
        proof {
            use_type_invariant(&self.wave_id);
            use_type_invariant(&self.wavelet_id);
            law_wavelet_name_roundtrip(self@.0.0, self@.0.1, self@.1.0, self@.1.1);
        }
        let mut s = self.wave_id.to_string();
        push_char(&mut s, '/');
        if str_eq(self.wave_id.domain(), self.wavelet_id.domain()) {
            s.append(self.wavelet_id.id());
        } else {
            let rest = self.wavelet_id.to_string();
            s.append(rest.as_str());
        }
        s
    }
}

impl std::str::FromStr for ParticipantId {
    type Err = IdError;

    fn from_str(s: &str) -> (r: Result<Self, IdError>)
        ensures
            result_view(r) == parse_participant(s@),
    {
        Self::parse(s)
    }
}

impl std::str::FromStr for WaveId {
    type Err = IdError;

    fn from_str(s: &str) -> (r: Result<Self, IdError>)
        ensures
            result_view(r) == parse_wave_id(s@),
    {
        Self::parse(s)
    }
}

impl std::str::FromStr for WaveletName {
    type Err = IdError;

    fn from_str(s: &str) -> (r: Result<Self, IdError>)
        ensures
            result_view(r) == parse_wavelet_name(s@),
    {
        Self::parse(s)
    }
}

// ---------------------------------------------------------------------------
// Laws
// ---------------------------------------------------------------------------

proof fn lemma_participant_idem(local: Seq<char>, domain: Seq<char>)
    requires
        spec_participant(local, domain) is Ok,
    ensures
        ({
            let v = spec_participant(local, domain)->Ok_0;
            spec_participant(v.0, v.1) == Ok::<_, IdFault>(v)
        }),
{
    lemma_token_fault_valid(local);
    lemma_token_lower(local);
    lemma_token_fault_valid(lower(local));
    lemma_domain_lower(domain);
    lemma_lower_idem(local);
    lemma_lower_idem(domain);
}

proof fn lemma_domain_id_idem(domain: Seq<char>, id: Seq<char>)
    requires
        spec_domain_id(domain, id) is Ok,
    ensures
        ({
            let v = spec_domain_id(domain, id)->Ok_0;
            spec_domain_id(v.0, v.1) == Ok::<_, IdFault>(v)
        }),
{
    lemma_domain_lower(domain);
    lemma_lower_idem(domain);
}

proof fn lemma_lower_idem(s: Seq<char>)
    ensures
        lower(lower(s)) == lower(s),
{
    assert(lower(lower(s)) =~= lower(s));
}

proof fn lemma_token_lower(t: Seq<char>)
    requires
        valid_token(t),
    ensures
        valid_token(lower(t)),
        !has_char(t, '@'),
        !has_char(t, '/'),
        !has_char(lower(t), '@'),
        !has_char(lower(t), '/'),
{
    let lt = lower(t);
    assert forall|i: int| 0 <= i < lt.len() implies is_token_char(#[trigger] lt[i]) by {
        assert(is_token_char(t[i]));
    }
    assert(!has_char(t, '@')) by {
        if has_char(t, '@') {
            let i = choose|i: int| 0 <= i < t.len() && t[i] == '@';
            assert(is_token_char(t[i]));
        }
    }
    assert(!has_char(t, '/')) by {
        if has_char(t, '/') {
            let i = choose|i: int| 0 <= i < t.len() && t[i] == '/';
            assert(is_token_char(t[i]));
        }
    }
    assert(!has_char(lt, '@')) by {
        if has_char(lt, '@') {
            let i = choose|i: int| 0 <= i < lt.len() && lt[i] == '@';
            assert(is_token_char(lt[i]));
        }
    }
    assert(!has_char(lt, '/')) by {
        if has_char(lt, '/') {
            let i = choose|i: int| 0 <= i < lt.len() && lt[i] == '/';
            assert(is_token_char(lt[i]));
        }
    }
}

/// Lower-casing commutes with splitting on a separator it leaves alone.
proof fn lemma_split_lower(s: Seq<char>, sep: char)
    requires
        !('A' <= sep && sep <= 'Z'),
        !('a' <= sep && sep <= 'z'),
    ensures
        split_on(lower(s), sep) == split_on(s, sep).map_values(|p: Seq<char>| lower(p)),
    decreases s.len(),
{
    lemma_split_len_pos(s, sep);
    if s.len() == 0 {
        assert(lower(s) =~= Seq::<char>::empty());
        assert(lower(Seq::<char>::empty()) =~= Seq::<char>::empty());
        assert(split_on(lower(s), sep) =~= split_on(s, sep).map_values(|p: Seq<char>| lower(p)));
    } else {
        let init = s.drop_last();
        lemma_split_lower(init, sep);
        lemma_split_len_pos(init, sep);
        assert(lower(s).drop_last() =~= lower(init));
        assert(lower(s).last() == ascii_lower(s.last()));
        assert((ascii_lower(s.last()) == sep) == (s.last() == sep));
        let si = split_on(init, sep);
        if s.last() == sep {
            assert(lower(Seq::<char>::empty()) =~= Seq::<char>::empty());
            assert(split_on(lower(s), sep) =~= split_on(s, sep).map_values(|p: Seq<char>| lower(p)));
        } else {
            assert(lower(si.last().push(s.last())) =~= lower(si.last()).push(ascii_lower(s.last())));
            assert(split_on(lower(s), sep) =~= split_on(s, sep).map_values(|p: Seq<char>| lower(p)));
        }
    }
}

proof fn lemma_domain_lower(d: Seq<char>)
    requires
        valid_domain(d),
    ensures
        valid_domain(lower(d)),
        !has_char(d, '@'),
        !has_char(d, '/'),
        !has_char(lower(d), '@'),
        !has_char(lower(d), '/'),
{
    lemma_split_lower(d, '.');
    let ps = split_on(d, '.');
    let lps = split_on(lower(d), '.');
    assert forall|k: int| 0 <= k < lps.len() implies valid_label(#[trigger] lps[k]) by {
        let l = ps[k];
        assert(valid_label(l));
        assert(lps[k] == lower(l));
        let ll = lower(l);
        assert forall|i: int| 0 <= i < ll.len() implies (is_ascii_alnum(#[trigger] ll[i])
            || ll[i] == '-') by {
            assert(is_ascii_alnum(l[i]) || l[i] == '-');
        }
        assert(ll.last() == ascii_lower(l.last()));
    }
    lemma_domain_avoids(d, '@');
    lemma_domain_avoids(d, '/');
    lemma_domain_avoids(lower(d), '@');
    lemma_domain_avoids(lower(d), '/');
}

/// Every character of a valid domain is a label character or a dot.
proof fn lemma_domain_avoids(d: Seq<char>, c: char)
    requires
        valid_domain(d),
        !is_ascii_alnum(c),
        c != '-',
        c != '.',
    ensures
        !has_char(d, c),
{
    let ps = split_on(d, '.');
    assert forall|k: int| 0 <= k < ps.len() implies !has_char(#[trigger] ps[k], c) by {
        let l = ps[k];
        assert(valid_label(l));
        if has_char(l, c) {
            let i = choose|i: int| 0 <= i < l.len() && l[i] == c;
            assert(is_ascii_alnum(l[i]) || l[i] == '-');
        }
    }
    lemma_split_pieces_cover(d, '.', c);
}

/// A character other than the separator that occurs in no piece does not
/// occur in the whole.
proof fn lemma_split_pieces_cover(s: Seq<char>, sep: char, c: char)
    requires
        c != sep,
        forall|k: int|
            0 <= k < split_on(s, sep).len() ==> !has_char(#[trigger] split_on(s, sep)[k], c),
    ensures
        !has_char(s, c),
    decreases s.len(),
{
    if s.len() > 0 {
        let init = s.drop_last();
        let si = split_on(init, sep);
        lemma_split_len_pos(init, sep);
        if s.last() == sep {
            assert forall|k: int| 0 <= k < si.len() implies !has_char(#[trigger] si[k], c) by {
                assert(split_on(s, sep)[k] == si[k]);
            }
        } else {
            let ss = split_on(s, sep);
            assert forall|k: int| 0 <= k < si.len() implies !has_char(#[trigger] si[k], c) by {
                if k < si.len() - 1 {
                    assert(ss[k] == si[k]);
                } else {
                    assert(ss[k] == si[k].push(s.last()));
                    if has_char(si[k], c) {
                        let i = choose|i: int| 0 <= i < si[k].len() && si[k][i] == c;
                        assert(ss[k][i] == c);
                    }
                }
            }
            assert(s.last() != c) by {
                let k = si.len() - 1;
                assert(ss[k] == si[k].push(s.last()));
                assert(ss[k][si[k].len() as int] == s.last());
            }
        }
        lemma_split_pieces_cover(init, sep, c);
        if has_char(s, c) {
            let i = choose|i: int| 0 <= i < s.len() && s[i] == c;
            if i < s.len() - 1 {
                assert(init[i] == c);
            }
        }
    }
}

proof fn lemma_two_pieces(a: Seq<char>, b: Seq<char>, sep: char)
    requires
        !has_char(a, sep),
        !has_char(b, sep),
    ensures
        split_on(a + seq![sep] + b, sep) == seq![a, b],
{
    lemma_split_concat(a, b, sep);
    lemma_split_no_sep(a, sep);
    lemma_split_no_sep(b, sep);
    assert(seq![a] + seq![b] =~= seq![a, b]);
}

/// Serializing a participant and parsing the text gives back the same
/// participant.
pub proof fn law_participant_roundtrip(local: Seq<char>, domain: Seq<char>)
    requires
        spec_participant(local, domain) is Ok,
    ensures
        parse_participant(participant_text(spec_participant(local, domain)->Ok_0))
            == spec_participant(local, domain),
{
    lemma_token_fault_valid(local);
    lemma_token_lower(local);
    lemma_domain_lower(domain);
    let l = lower(local);
    let d = lower(domain);
    lemma_two_pieces(l, d, '@');
    assert(participant_text((l, d)) == l + seq!['@'] + d);
    lemma_token_fault_valid(l);
    lemma_lower_idem(local);
    lemma_lower_idem(domain);
}

/// A parsed participant prints as the text it was parsed from, lower-cased.
pub proof fn law_participant_prints_lowercase(s: Seq<char>)
    requires
        parse_participant(s) is Ok,
    ensures
        participant_text(parse_participant(s)->Ok_0) == lower(s),
{
    let parts = split_on(s, '@');
    crate::text::lemma_split_join(s, '@');
    assert(parts.len() == 2);
    assert(parts.drop_last() =~= seq![parts[0]]);
    assert(crate::text::join_on(parts.drop_last(), '@') == parts[0]);
    assert(crate::text::join_on(parts, '@') == parts[0] + seq!['@'] + parts[1]);
    assert(s == parts[0] + seq!['@'] + parts[1]);
    assert(lower(s) =~= lower(parts[0]) + seq!['@'] + lower(parts[1]));
}

/// Serializing a wave or wavelet id and parsing the text gives back the
/// same id.
pub proof fn law_wave_id_roundtrip(domain: Seq<char>, id: Seq<char>)
    requires
        spec_domain_id(domain, id) is Ok,
    ensures
        parse_wave_id(domain_id_text(spec_domain_id(domain, id)->Ok_0)) == spec_domain_id(
            domain,
            id,
        ),
{
    lemma_token_fault_valid(id);
    lemma_token_lower(id);
    lemma_domain_lower(domain);
    let d = lower(domain);
    lemma_two_pieces(d, id, '/');
    lemma_lower_idem(domain);
}

/// Serializing a wavelet name (compact or not) and parsing the text gives
/// back the same wave and wavelet ids.
pub proof fn law_wavelet_name_roundtrip(
    wave_domain: Seq<char>,
    wave_id: Seq<char>,
    wavelet_domain: Seq<char>,
    wavelet_id: Seq<char>,
)
    requires
        spec_domain_id(wave_domain, wave_id) is Ok,
        spec_domain_id(wavelet_domain, wavelet_id) is Ok,
    ensures
        ({
            let n = (
                spec_domain_id(wave_domain, wave_id)->Ok_0,
                spec_domain_id(wavelet_domain, wavelet_id)->Ok_0,
            );
            parse_wavelet_name(wavelet_name_text(n)) == Ok::<_, IdFault>(n)
        }),
{
    lemma_token_fault_valid(wave_id);
    lemma_token_lower(wave_id);
    lemma_domain_lower(wave_domain);
    lemma_token_fault_valid(wavelet_id);
    lemma_token_lower(wavelet_id);
    lemma_domain_lower(wavelet_domain);
    lemma_lower_idem(wave_domain);
    lemma_lower_idem(wavelet_domain);
    let wd = lower(wave_domain);
    let ld = lower(wavelet_domain);
    let sep = '/';
    lemma_split_no_sep(wd, sep);
    lemma_split_no_sep(wave_id, sep);
    lemma_split_no_sep(ld, sep);
    lemma_split_no_sep(wavelet_id, sep);
    if wd == ld {
        let t = wd + seq![sep] + wave_id + seq![sep] + wavelet_id;
        lemma_split_concat(wd, wave_id, sep);
        lemma_split_concat(wd + seq![sep] + wave_id, wavelet_id, sep);
        assert(split_on(t, sep) =~= seq![wd, wave_id, wavelet_id]);
        assert(wavelet_name_text(((wd, wave_id), (ld, wavelet_id))) == t);
    } else {
        let a = wd + seq![sep] + wave_id;
        let b = ld + seq![sep] + wavelet_id;
        let t = a + seq![sep] + b;
        lemma_split_concat(wd, wave_id, sep);
        lemma_split_concat(ld, wavelet_id, sep);
        lemma_split_concat(a, b, sep);
        assert(split_on(t, sep) =~= seq![wd, wave_id, ld, wavelet_id]);
        assert(wavelet_name_text(((wd, wave_id), (ld, wavelet_id))) == t);
    }
}

} // verus!
