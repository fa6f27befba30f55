//! Distributed folder sharing: a folder becomes content-defined chunks in
//! the blob store, described by a manifest; downloads assemble files chunk
//! by chunk, fetching chunks the server lacks from the wave's other
//! participant domains, origin first.

use vstd::prelude::*;
use vstd::multiset::Multiset;
use crate::cas::{Cas, content_key};
use crate::common::{ApiError, BAD_REQUEST, FORBIDDEN, PAYLOAD_TOO_LARGE, utf8_len, trim, trim_str};
use crate::federation::{domain_is_participant, participant_domain_is};
use crate::id::{ParticipantId, lower, lower_string, parse_participant, participant_text};
use crate::store::WaveMeta;
use crate::text::{
    chars_of, contains_str, has_substring, push_char, split_chars, split_on, str_eq, string_of, string_views,
    lex_lt, lemma_lex_trans, lemma_lex_total, lemma_lex_asym, lemma_lex_irrefl, str_lt,
};

verus! {

/// Smallest content-defined chunk, in bytes.
pub const CHUNK_MIN: u32 = 65536;
/// Target average chunk size, in bytes.
pub const CHUNK_AVG: u32 = 262144;
/// Largest chunk, in bytes.
pub const CHUNK_MAX: u32 = 1048576;

/// Largest folder upload, in bytes.
pub const MAX_UPLOAD_BYTES: usize = 536870912;
/// Largest single file in a folder upload, in bytes.
pub const MAX_FILE_BYTES: usize = 134217728;

/// The federation endpoint for share announcements.
pub const SHARE_ANNOUNCE_PATH: &'static str = "/federation/v0/share-announce";
/// The federation endpoint for blob requests.
pub const BLOB_PATH: &'static str = "/federation/v0/blob";

/// Where a folder upload goes, and what the folder is called.
#[derive(Debug)]
pub struct UploadQuery {
    pub wave: String,
    pub name: String,
}

/// The wave whose shares are listed.
#[derive(Debug)]
pub struct ListQuery {
    pub wave: String,
}

/// The file of a share to download, by its path in the folder.
#[derive(Debug)]
pub struct FileQuery {
    pub path: String,
}

/// A shared folder as recorded for a wave. Its manifest's key is the
/// share's id and read capability.
#[derive(Debug, Clone)]
pub struct ShareMeta {
    pub manifest_hash: String,
    pub wave: String,
    pub name: String,
    pub total_size: u64,
    pub file_count: u32,
    pub uploader: String,
    pub origin_domain: String,
    /// Every chunk is held locally.
    pub mirrored: bool,
    pub created_ms: u64,
}

/// One file of a folder manifest: its chunks' keys, in order.
#[derive(Debug, Clone)]
pub struct FileEntry {
    pub path: String,
    pub size: u64,
    pub mime: String,
    pub chunks: Vec<String>,
}

/// A folder: its files sorted by path.
#[derive(Debug, Clone)]
pub struct FolderManifest {
    pub name: String,
    pub total_size: u64,
    pub created_ms: u64,
    pub files: Vec<FileEntry>,
}

// ---------------------------------------------------------------------------
// Names, paths and types
// ---------------------------------------------------------------------------

/// The media type for a lower-cased file extension.
pub open spec fn mime_of_ext(e: Seq<char>) -> Seq<char> {
    if e == "png"@ {
        "image/png"@
    } else if e == "jpg"@ || e == "jpeg"@ {
        "image/jpeg"@
    } else if e == "gif"@ {
        "image/gif"@
    } else if e == "svg"@ {
        "image/svg+xml"@
    } else if e == "md"@ {
        "text/markdown"@
    } else if e == "txt"@ {
        "text/plain"@
    } else if e == "pdf"@ {
        "application/pdf"@
    } else if e == "json"@ {
        "application/json"@
    } else if e == "csv"@ {
        "text/csv"@
    } else if e == "html"@ {
        "text/html"@
    } else if e == "zip"@ {
        "application/zip"@
    } else {
        "application/octet-stream"@
    }
}

/// The extension of a path: what follows its last `.` (all of it when
/// there is none).
pub open spec fn extension_of(path: Seq<char>) -> Seq<char> {
    split_on(path, '.').last()
}

/// The media type of a file, guessed from its extension (any case).
pub fn guess_mime(path: &str) -> (m: &'static str)
    ensures
        m@ == mime_of_ext(lower(extension_of(path@))),
{
    let cs = chars_of(path);
    let parts = split_chars(cs.as_slice(), '.');
    proof { crate::text::lemma_split_len_pos(path@, '.'); }
    let last = &parts[parts.len() - 1];
    assert(last@ == split_on(path@, '.').last()) by {
        assert(parts@.map_values(|x: Vec<char>| x@)[parts.len() - 1] == parts@[parts.len() - 1]@);
    }
    let e = lower_string(last.as_slice());
    let e = e.as_str();
    if str_eq(e, "png") {
        "image/png"
    } else if str_eq(e, "jpg") || str_eq(e, "jpeg") {
        "image/jpeg"
    } else if str_eq(e, "gif") {
        "image/gif"
    } else if str_eq(e, "svg") {
        "image/svg+xml"
    } else if str_eq(e, "md") {
        "text/markdown"
    } else if str_eq(e, "txt") {
        "text/plain"
    } else if str_eq(e, "pdf") {
        "application/pdf"
    } else if str_eq(e, "json") {
        "application/json"
    } else if str_eq(e, "csv") {
        "text/csv"
    } else if str_eq(e, "html") {
        "text/html"
    } else if str_eq(e, "zip") {
        "application/zip"
    } else {
        "application/octet-stream"
    }
}

/// Backslashes become slashes.
pub open spec fn normalized_path(p: Seq<char>) -> Seq<char> {
    p.map_values(|c: char| if c == '\\' { '/' } else { c })
}

/// An uploaded path is usable when it is not empty and never climbs (`..`).
pub open spec fn upload_path_ok(p: Seq<char>) -> bool {
    p.len() > 0 && !has_substring(p, ".."@)
}

/// A file path as uploaded, with `\` turned into `/`.
pub fn normalize_path(p: &str) -> (r: String)
    ensures
        r@ == normalized_path(p@),
{
    let cs = chars_of(p);
    let mut r = String::new();
    let mut i: usize = 0;
    while i < cs.len()
        invariant
            i <= cs.len(),
            cs@ == p@,
            r@ == normalized_path(cs@.take(i as int)),
        decreases cs.len() - i,
    {
        let c = if cs[i] == '\\' { '/' } else { cs[i] };
        push_char(&mut r, c);
        assert(normalized_path(cs@.take(i + 1)) =~= normalized_path(cs@.take(i as int)).push(c));
        i += 1;
    }
    assert(cs@.take(cs.len() as int) =~= p@);
    r
}

/// The checks on one uploaded file, by its path and size in bytes.
pub open spec fn upload_file_outcome(raw_path: Seq<char>, size: nat) -> Result<Option<Seq<char>>, (u16, Seq<char>)> {
    let p = normalized_path(raw_path);
    if !upload_path_ok(p) {
        Err((BAD_REQUEST, "bad file path in upload"@))
    } else if size > MAX_FILE_BYTES {
        Err((PAYLOAD_TOO_LARGE, p + ": file exceeds 128 MB"@))
    } else if size == 0 {
        Ok(None)
    } else {
        Ok(Some(p))
    }
}

pub open spec fn opt_string_view(o: Option<String>) -> Option<Seq<char>> {
    match o {
        Some(s) => Some(s@),
        None => None,
    }
}

/// One file of a folder upload: refused for a bad path or when larger than
/// 128 MB, skipped (`None`) when empty, else kept under its normalized path.
pub fn check_upload_file(raw_path: &str, size: usize) -> (r: Result<Option<String>, ApiError>)
    ensures
        match upload_file_outcome(raw_path@, size as nat) {
            Ok(o) => r is Ok && opt_string_view(r->Ok_0) == o,
            Err(f) => r matches Err(e) && e.0 == f.0 && e.1@ == f.1,
        },
{
    let p = normalize_path(raw_path);
    if p.as_str().is_empty() || contains_str(p.as_str(), "..") {
        return Err(ApiError::bad_request("bad file path in upload"));
    }
    if size > MAX_FILE_BYTES {
        let mut msg = p.as_str().to_owned();
        msg.append(": file exceeds 128 MB");
        return Err(ApiError::with_status(PAYLOAD_TOO_LARGE, msg.as_str()));
    }
    if size == 0 {
        return Ok(None);
    }
    Ok(Some(p))
}

/// A folder name is trimmed and must be 1 to 120 bytes long.
pub fn check_folder_name(name: &str) -> (r: Result<String, ApiError>)
    ensures
        match r {
            Ok(n) => n@ == trim(name@) && n@.len() > 0 && utf8_len(n@) <= 120,
            Err(e) => (trim(name@).len() == 0 || utf8_len(trim(name@)) > 120) && e.0 == BAD_REQUEST && e.1@
                == "folder name must be 1-120 chars"@,
        },
{
    let n = trim_str(name);
    if n.as_str().is_empty() || n.as_str().len() > 120 {
        return Err(ApiError::bad_request("folder name must be 1-120 chars"));
    }
    Ok(n)
}

/// Without `"` characters.
pub open spec fn without_quotes(s: Seq<char>) -> Seq<char>
    decreases s.len(),
{
    if s.len() == 0 {
        s
    } else if s.last() == '"' {
        without_quotes(s.drop_last())
    } else {
        without_quotes(s.drop_last()).push(s.last())
    }
}

/// The name a downloaded file is saved under: the last component of its
/// path, without quotes.
pub open spec fn download_name_of(path: Seq<char>) -> Seq<char> {
    without_quotes(split_on(path, '/').last())
}

pub(crate) fn strip_quotes(cs: &[char]) -> (r: String)
    ensures
        r@ == without_quotes(cs@),
{
    let mut r = String::new();
    let mut i: usize = 0;
    while i < cs.len()
        invariant
            i <= cs.len(),
            r@ == without_quotes(cs@.take(i as int)),
        decreases cs.len() - i,
    {
        assert(cs@.take(i + 1).drop_last() =~= cs@.take(i as int));
        if cs[i] != '"' {
            push_char(&mut r, cs[i]);
        }
        i += 1;
    }
    assert(cs@.take(cs.len() as int) =~= cs@);
    r
}

/// The file name for a download of `path`.
pub fn download_name(path: &str) -> (r: String)
    ensures
        r@ == download_name_of(path@),
{
    let cs = chars_of(path);
    let parts = split_chars(cs.as_slice(), '/');
    proof { crate::text::lemma_split_len_pos(path@, '/'); }
    let last = &parts[parts.len() - 1];
    assert(last@ == split_on(path@, '/').last()) by {
        assert(parts@.map_values(|x: Vec<char>| x@)[parts.len() - 1] == parts@[parts.len() - 1]@);
    }
    strip_quotes(last.as_slice())
}

// ---------------------------------------------------------------------------
// Where chunks come from
// ---------------------------------------------------------------------------

/// `s` without the elements equal to `x`, in order.
pub open spec fn without(s: Seq<Seq<char>>, x: Seq<char>) -> Seq<Seq<char>>
    decreases s.len(),
{
    if s.len() == 0 {
        s
    } else if s.last() == x {
        without(s.drop_last(), x)
    } else {
        without(s.drop_last(), x).push(s.last())
    }
}

/// The swarm for a chunk: the share's origin first, then the wave's other
/// remote domains, never this server itself.
pub open spec fn chunk_sources_of(origin: Seq<char>, remotes: Seq<Seq<char>>, ours: Seq<char>) -> Seq<Seq<char>> {
    without(seq![origin] + without(remotes, origin), ours)
}

fn drop_equal(v: Vec<String>, x: &str) -> (r: Vec<String>)
    ensures
        string_views(r@) == without(string_views(v@), x@),
{
    let ghost sv = string_views(v@);
    let mut r: Vec<String> = Vec::new();
    let mut i: usize = 0;
    assert(sv.take(0) =~= Seq::<Seq<char>>::empty());
    while i < v.len()
        invariant
            i <= v.len(),
            sv == string_views(v@),
            string_views(r@) == without(sv.take(i as int), x@),
        decreases v.len() - i,
    {
        assert(sv.take(i + 1).drop_last() =~= sv.take(i as int));
        assert(sv.take(i + 1).last() == v@[i as int]@);
        if !str_eq(v[i].as_str(), x) {
            let ghost before = r@;
            r.push(v[i].as_str().to_owned());
            assert(string_views(r@) =~= string_views(before).push(v@[i as int]@));
        }
        i += 1;
    }
    assert(sv.take(v.len() as int) =~= sv);
    r
}

/// The domains to try for a chunk this server lacks.
pub fn chunk_sources(origin: &str, remotes: &Vec<String>, ours: &str) -> (r: Vec<String>)
    ensures
        string_views(r@) == chunk_sources_of(origin@, string_views(remotes@), ours@),
{
    let mut copy: Vec<String> = Vec::new();
    let mut i: usize = 0;
    while i < remotes.len()
        invariant
            i <= remotes.len(),
            string_views(copy@) == string_views(remotes@).take(i as int),
        decreases remotes.len() - i,
    {
        let ghost before = copy@;
        copy.push(remotes[i].as_str().to_owned());
        assert(string_views(copy@) =~= string_views(before).push(remotes@[i as int]@));
        assert(string_views(remotes@).take(i + 1) =~= string_views(remotes@).take(i as int).push(remotes@[i as int]@));
        i += 1;
    }
    assert(string_views(remotes@).take(remotes.len() as int) =~= string_views(remotes@));
    let others = drop_equal(copy, origin);
    let mut all: Vec<String> = Vec::new();
    all.push(origin.to_owned());
    let mut k: usize = 0;
    assert(string_views(all@) =~= seq![origin@]);
    while k < others.len()
        invariant
            k <= others.len(),
            string_views(all@) == seq![origin@] + string_views(others@).take(k as int),
        decreases others.len() - k,
    {
        let ghost before = all@;
        all.push(others[k].as_str().to_owned());
        assert(string_views(all@) =~= string_views(before).push(others@[k as int]@));
        assert(string_views(others@).take(k + 1) =~= string_views(others@).take(k as int).push(others@[k as int]@));
        k += 1;
    }
    assert(string_views(others@).take(others.len() as int) =~= string_views(others@));
    drop_equal(all, ours)
}

/// What a source's reply to a chunk request leads to.
#[derive(Debug)]
pub enum ChunkStep {
    /// The bytes hash to the chunk's key: serve them (and store them).
    Accept(Vec<u8>),
    /// No bytes, or bytes that do not match the key: try the next source.
    TryNext,
}

/// One step of fetching a missing chunk from the swarm, in the order
/// `try_order` gives: bytes are accepted only when they hash to the
/// chunk's key, so a corrupt blob from a peer is never served; a miss or a
/// corrupt blob moves on to the next source.
pub fn chunk_reply(hash: &str, reply: Option<Vec<u8>>) -> (r: ChunkStep)
    ensures
        match reply {
            Some(b) => if content_key(b@) == hash@ {
                r matches ChunkStep::Accept(x) && x@ == b@
            } else {
                r is TryNext
            },
            None => r is TryNext,
        },
        r matches ChunkStep::Accept(x) ==> content_key(x@) == hash@,
{
    match reply {
        Some(bytes) => if Cas::verifies(hash, bytes.as_slice()) {
            ChunkStep::Accept(bytes)
        } else {
            ChunkStep::TryNext
        },
        None => ChunkStep::TryNext,
    }
}

/// The order in which the swarm is tried for the chunk at `index`: rotated
/// by the index, so the load spreads over the sources.
pub fn try_order(sources: &Vec<String>, index: usize) -> (r: Vec<String>)
    ensures
        r.len() == sources.len(),
        forall|k: int|
            0 <= k < r.len() ==> (#[trigger] r@[k])@ == sources@[(index + k) % (sources.len() as int)]@,
{
    let n = sources.len();
    let mut r: Vec<String> = Vec::new();
    if n == 0 {
        return r;
    }
    let mut pos = index % n;
    let mut k: usize = 0;
    while k < n
        invariant
            n == sources.len(),
            n > 0,
            k <= n,
            r.len() == k,
            pos < n,
            pos as int == (index + k) % (n as int),
            forall|j: int| 0 <= j < k ==> (#[trigger] r@[j])@ == sources@[(index + j) % (n as int)]@,
        decreases n - k,
    {
        r.push(sources[pos].as_str().to_owned());
        proof {
            assert((index + k + 1) % (n as int) == if pos + 1 == n { 0 } else { pos + 1 }) by (nonlinear_arith)
                requires
                    pos as int == (index + k) % (n as int),
                    pos < n,
                    n > 0,
            {
            }
        }
        pos = if pos + 1 == n { 0 } else { pos + 1 };
        k += 1;
    }
    r
}

// ---------------------------------------------------------------------------
// Federation access
// ---------------------------------------------------------------------------

/// Some participant of the wave belongs to `peer`.
pub open spec fn peer_on_wave(meta: WaveMeta, peer: Seq<char>) -> bool {
    exists|i: int|
        0 <= i < meta.participants@.len() && participant_domain_is(#[trigger] string_views(meta.participants@)[i], peer)
}

/// A share announcement is accepted from a domain that holds a participant
/// on the wave, for an uploader of that same domain (no forged
/// attributions).
pub fn accept_share_announce(meta: &WaveMeta, uploader: &str, peer: &str) -> (r: Result<(), ApiError>)
    ensures
        r is Ok <==> (peer_on_wave(*meta, peer@) && participant_domain_is(uploader@, peer@)),
        r matches Err(e) ==> e.0 == FORBIDDEN && e.1@ == "not a participant domain"@,
{
    let on_wave = domain_is_participant(meta, peer);
    let up = ParticipantId::parse(uploader);
    let same = match &up {
        Ok(p) => str_eq(p.domain(), peer),
        Err(_) => false,
    };
    if !on_wave || !same {
        return Err(ApiError::forbidden("not a participant domain"));
    }
    Ok(())
}

/// A blob is served to a domain that holds a participant on the share's wave.
pub fn accept_blob_request(meta: &WaveMeta, peer: &str) -> (r: Result<(), ApiError>)
    ensures
        r is Ok <==> peer_on_wave(*meta, peer@),
        r matches Err(e) ==> e.0 == FORBIDDEN && e.1@ == "not a participant domain"@,
{
    if !domain_is_participant(meta, peer) {
        return Err(ApiError::forbidden("not a participant domain"));
    }
    Ok(())
}

// ---------------------------------------------------------------------------
// Content-defined chunking
// ---------------------------------------------------------------------------

/// The cut points (offset, length) FastCDC 2020 chooses for `data` with the
/// given minimum, average and maximum chunk sizes.
pub uninterp spec fn fastcdc_cuts(data: Seq<u8>, min: u32, avg: u32, max: u32) -> Seq<(usize, usize)>;

/// The bytes covered by the cuts, together.
pub open spec fn cut_total(cuts: Seq<(usize, usize)>) -> nat
    decreases cuts.len(),
{
    if cuts.len() == 0 {
        0
    } else {
        cut_total(cuts.drop_last()) + (cuts.last().1 as nat)
    }
}

/// The cuts tile `n` bytes: each starts where the ones before it end, each
/// is 1 to `max` bytes long, and together they cover exactly `n` bytes.
pub open spec fn cuts_tile(cuts: Seq<(usize, usize)>, n: nat, max: nat) -> bool {
    &&& forall|i: int|
        0 <= i < cuts.len() ==> (#[trigger] cuts[i]).0 == cut_total(cuts.take(i)) && 0 < cuts[i].1 <= max
    &&& cut_total(cuts) == n
}

/// `fastcdc::v2020::FastCDC::new(data, min, avg, max)`, collected as
/// (offset, length) pairs. Its source starts at offset 0, cuts each chunk
/// where the last one ended, caps the scan at `max` bytes, never cuts an
/// empty chunk and stops when no bytes remain; it asserts each size's own
/// bounds, and the sizes must be ordered `min <= avg <= max` for the chunks
/// to stay within `max` (and for its scan to stay within the input).
#[verifier::external_body]
fn fastcdc_chunks(data: &[u8], min: u32, avg: u32, max: u32) -> (cuts: Vec<(usize, usize)>)
    requires
        64 <= min <= 1048576,
        256 <= avg <= 4194304,
        1024 <= max <= 16777216,
        min <= avg <= max,
    ensures
        cuts@ == fastcdc_cuts(data@, min, avg, max),
        cuts_tile(cuts@, data@.len(), max as nat),
{
    fastcdc::v2020::FastCDC::new(data, min, avg, max).map(|c| (c.offset, c.length)).collect()
}

/// The bytes of each cut, in order.
pub open spec fn chunk_bytes(data: Seq<u8>, cuts: Seq<(usize, usize)>) -> Seq<Seq<u8>> {
    cuts.map_values(|c: (usize, usize)| data.subrange(c.0 as int, c.0 + c.1))
}

/// The byte strings one after another.
pub open spec fn joined(parts: Seq<Seq<u8>>) -> Seq<u8>
    decreases parts.len(),
{
    if parts.len() == 0 {
        Seq::empty()
    } else {
        joined(parts.drop_last()) + parts.last()
    }
}

/// A chunk of a file: where it lies, and its key in the blob store.
#[derive(Debug)]
pub struct FileChunk {
    pub offset: usize,
    pub length: usize,
    pub key: String,
}

/// A chunk's key is the key of its bytes.
pub open spec fn chunk_keyed(data: Seq<u8>, c: FileChunk) -> bool {
    c.key@ == content_key(data.subrange(c.offset as int, c.offset + c.length))
}

pub open spec fn keyed(data: Seq<u8>, chunks: Seq<FileChunk>) -> bool {
    forall|j: int| 0 <= j < chunks.len() ==> chunk_keyed(data, #[trigger] chunks[j])
}

/// Splits a file into content-defined chunks (64 KiB min, 256 KiB average,
/// 1 MiB max) and keys each by its BLAKE3 digest.
pub fn chunk_file(data: &[u8]) -> (chunks: Vec<FileChunk>)
    ensures
        chunks@.map_values(|c: FileChunk| (c.offset, c.length)) == fastcdc_cuts(data@, CHUNK_MIN, CHUNK_AVG, CHUNK_MAX),
        cuts_tile(chunks@.map_values(|c: FileChunk| (c.offset, c.length)), data@.len(), CHUNK_MAX as nat),
        keyed(data@, chunks@),
{
    let cuts = fastcdc_chunks(data, CHUNK_MIN, CHUNK_AVG, CHUNK_MAX);
    let ghost cs = cuts@;
    proof {
        assert forall|j: int| 0 <= j < cs.len() implies (#[trigger] cs[j]).0 + cs[j].1 <= data@.len() by {
            lemma_cut_within(cs, data@.len(), CHUNK_MAX as nat, j);
        }
    }
    let mut out: Vec<FileChunk> = Vec::new();
    let mut i: usize = 0;
    while i < cuts.len()
        invariant
            i <= cuts.len(),
            cs == cuts@,
            forall|j: int| 0 <= j < cs.len() ==> (#[trigger] cs[j]).0 + cs[j].1 <= data@.len(),
            out@.map_values(|c: FileChunk| (c.offset, c.length)) == cs.take(i as int),
            keyed(data@, out@),
        decreases cuts.len() - i,
    {
        let (off, len) = cuts[i];
        assert(cs[i as int] == (off, len));
        assert(cs[i as int].0 + cs[i as int].1 <= data@.len());
        assert(off + len <= data.len());
        let key = Cas::key_of(&data[off..off + len]);
        let ghost before = out@;
        out.push(FileChunk { offset: off, length: len, key });
        assert(cs.take(i + 1) =~= cs.take(i as int).push((off, len)));
        assert(out@.map_values(|c: FileChunk| (c.offset, c.length)) =~= before.map_values(
            |c: FileChunk| (c.offset, c.length),
        ).push((off, len)));
        assert(out@[i as int].key@ == content_key(data@.subrange(off as int, off + len)));
        assert forall|j: int| 0 <= j < out.len() implies chunk_keyed(data@, #[trigger] out@[j]) by {
            if j < i {
                assert(out@[j] == before[j]);
            }
        }
        i += 1;
    }
    assert(cs.take(cuts.len() as int) =~= cs);
    out
}

proof fn lemma_cut_total_take(cuts: Seq<(usize, usize)>, k: int)
    requires
        0 <= k <= cuts.len(),
    ensures
        cut_total(cuts.take(k)) <= cut_total(cuts),
    decreases cuts.len() - k,
{
    if k < cuts.len() {
        lemma_cut_total_take(cuts, k + 1);
        assert(cuts.take(k + 1).drop_last() =~= cuts.take(k));
    } else {
        assert(cuts.take(k) =~= cuts);
    }
}

/// Every cut lies inside the tiled bytes.
proof fn lemma_cut_within(cuts: Seq<(usize, usize)>, n: nat, max: nat, i: int)
    requires
        cuts_tile(cuts, n, max),
        0 <= i < cuts.len(),
    ensures
        cuts[i].0 + cuts[i].1 <= n,
        cuts[i].0 + cuts[i].1 == cut_total(cuts.take(i + 1)),
{
    assert(cuts.take(i + 1).drop_last() =~= cuts.take(i));
    lemma_cut_total_take(cuts, i + 1);
}

/// A file's chunks, joined in order, are the file.
pub proof fn law_chunks_reassemble(data: Seq<u8>, cuts: Seq<(usize, usize)>, max: nat)
    requires
        cuts_tile(cuts, data.len(), max),
    ensures
        joined(chunk_bytes(data, cuts)) == data,
{
    lemma_joined_prefix(data, cuts, max, cuts.len() as int);
    assert(cuts.take(cuts.len() as int) =~= cuts);
    assert(data.take(data.len() as int) =~= data);
}

proof fn lemma_joined_prefix(data: Seq<u8>, cuts: Seq<(usize, usize)>, max: nat, k: int)
    requires
        cuts_tile(cuts, data.len(), max),
        0 <= k <= cuts.len(),
    ensures
        cut_total(cuts.take(k)) <= data.len(),
        joined(chunk_bytes(data, cuts.take(k))) == data.take(cut_total(cuts.take(k)) as int),
    decreases k,
{
    lemma_cut_total_take(cuts, k);
    if k == 0 {
        assert(chunk_bytes(data, cuts.take(0)) =~= Seq::<Seq<u8>>::empty());
        assert(data.take(0) =~= Seq::<u8>::empty());
    } else {
        lemma_joined_prefix(data, cuts, max, k - 1);
        lemma_cut_within(cuts, data.len(), max, k - 1);
        let c = cuts[k - 1];
        assert(cuts.take(k).drop_last() =~= cuts.take(k - 1));
        assert(chunk_bytes(data, cuts.take(k)).drop_last() =~= chunk_bytes(data, cuts.take(k - 1)));
        assert(chunk_bytes(data, cuts.take(k)).last() == data.subrange(c.0 as int, c.0 + c.1));
        assert(data.take(cut_total(cuts.take(k - 1)) as int) + data.subrange(c.0 as int, c.0 + c.1) =~= data.take(
            cut_total(cuts.take(k)) as int,
        ));
    }
}

// ---------------------------------------------------------------------------
// Manifests
// ---------------------------------------------------------------------------

/// File entries in order of their paths.
pub open spec fn sorted_by_path(files: Seq<FileEntry>) -> bool {
    forall|i: int, j: int| 0 <= i < j < files.len() ==> !lex_lt((#[trigger] files[j]).path@, (#[trigger] files[i]).path@)
}

/// Sorts a folder's files by path.
pub fn sort_by_path(files: Vec<FileEntry>) -> (r: Vec<FileEntry>)
    ensures
        sorted_by_path(r@),
        r@.to_multiset() == files@.to_multiset(),
{
    broadcast use vstd::seq_lib::group_to_multiset_ensures;
    let ghost all = files@;
    let mut out: Vec<FileEntry> = Vec::new();
    let mut rest = files;
    while rest.len() > 0
        invariant
            sorted_by_path(out@),
            out@.to_multiset().add(rest@.to_multiset()) == all.to_multiset(),
        decreases rest.len(),
    {
        let ghost rest0 = rest@;
        let f = rest.remove(0);
        assert(rest0.remove(0) == rest@);
        // Insert after every entry whose path is not greater (stable).
        let mut p: usize = 0;
        while p < out.len() && !str_lt(f.path.as_str(), out[p].path.as_str())
            invariant
                p <= out.len(),
                forall|j: int| 0 <= j < p ==> !lex_lt(f.path@, (#[trigger] out@[j]).path@),
            decreases out.len() - p,
        {
            p += 1;
        }
        let ghost o = out@;
        proof {
            assert forall|j: int| p <= j < o.len() implies lex_lt(f.path@, (#[trigger] o[j]).path@) by {
                assert(lex_lt(f.path@, o[p as int].path@));
                if j > p {
                    assert(!lex_lt(o[j].path@, o[p as int].path@));
                    lemma_lex_total(o[j].path@, o[p as int].path@);
                    if o[j].path@ != o[p as int].path@ {
                        lemma_lex_trans(f.path@, o[p as int].path@, o[j].path@);
                    }
                }
            }
            assert forall|j: int| 0 <= j < p implies !lex_lt(f.path@, (#[trigger] o[j]).path@) by {}
        }
        out.insert(p, f);
        proof {
            let n = out@;
            assert(n == o.insert(p as int, f));
            assert forall|a: int, b: int| 0 <= a < b < n.len() implies !lex_lt(
                (#[trigger] n[b]).path@,
                (#[trigger] n[a]).path@,
            ) by {
                if b < p {
                    assert(n[a] == o[a] && n[b] == o[b]);
                } else if b == p {
                    assert(n[a] == o[a] && n[b] == f);
                    // f is not below any earlier entry
                    lemma_lex_total(f.path@, o[a].path@);
                    if lex_lt(f.path@, o[a].path@) {
                    } else if f.path@ == o[a].path@ {
                        lemma_lex_irrefl(f.path@);
                    } else {
                        lemma_lex_asym(o[a].path@, f.path@);
                    }
                } else if a == p {
                    assert(n[a] == f && n[b] == o[b - 1]);
                    lemma_lex_asym(f.path@, o[b - 1].path@);
                } else if a < p {
                    assert(n[a] == o[a] && n[b] == o[b - 1]);
                } else {
                    assert(n[a] == o[a - 1] && n[b] == o[b - 1]);
                }
            }
            broadcast use vstd::multiset::group_multiset_axioms;
            assert(rest0[0] == f);
            vstd::seq_lib::to_multiset_remove(rest0, 0);
            vstd::seq_lib::to_multiset_contains(rest0, f);
            vstd::seq_lib::to_multiset_insert(o, p as int, f);
            assert(rest0.contains(f));
            assert(rest0.to_multiset() =~= rest@.to_multiset().insert(f));
            assert(out@.to_multiset() =~= o.to_multiset().insert(f));
            assert(out@.to_multiset().add(rest@.to_multiset()) =~= o.to_multiset().add(rest0.to_multiset()));
        }
    }
    assert(rest@.to_multiset() =~= Multiset::<FileEntry>::empty());
    assert(out@.to_multiset().add(Multiset::<FileEntry>::empty()) =~= out@.to_multiset());
    out
}

/// Index of the file with this path in a manifest, if any.
pub fn find_file(files: &Vec<FileEntry>, path: &str) -> (r: Option<usize>)
    ensures
        match r {
            Some(k) => k < files.len() && files@[k as int].path@ == path@ && forall|j: int|
                0 <= j < k ==> (#[trigger] files@[j]).path@ != path@,
            None => forall|j: int| 0 <= j < files.len() ==> (#[trigger] files@[j]).path@ != path@,
        },
{
    let mut i: usize = 0;
    while i < files.len()
        invariant
            i <= files.len(),
            forall|j: int| 0 <= j < i ==> (#[trigger] files@[j]).path@ != path@,
        decreases files.len() - i,
    {
        if str_eq(files[i].path.as_str(), path) {
            return Some(i);
        }
        i += 1;
    }
    None
}

// ---------------------------------------------------------------------------
// A folder upload, put together
// ---------------------------------------------------------------------------

/// The bytes of the files together.
pub open spec fn total_size_of(files: Seq<FileEntry>) -> nat
    decreases files.len(),
{
    if files.len() == 0 {
        0
    } else {
        total_size_of(files.drop_last()) + (files.last().size as nat)
    }
}

/// A folder share from its uploaded files (empty files already left out):
/// an upload with no file is refused; otherwise the manifest lists the
/// files sorted by path with their total size, its key in the blob store
/// is the content key of its bytes, and the share is recorded as held here
/// in full. Hands back the manifest's bytes, to be stored, and the share.
pub fn folder_share(
    wave: &str,
    name: &str,
    uploader: &str,
    origin: &str,
    files: Vec<FileEntry>,
    created_ms: u64,
) -> (r: Result<(Vec<u8>, ShareMeta), ApiError>)
    requires
        total_size_of(files@) <= u64::MAX,
        files@.len() <= u32::MAX,
    ensures
        files@.len() == 0 ==> (r matches Err(e) && e.0 == BAD_REQUEST && e.1@ == "no files in upload"@),
        files@.len() > 0 ==> (r matches Ok((bytes, share)) && exists|m: FolderManifest| {
            &&& sorted_by_path(m.files@)
            &&& m.files@.to_multiset() == files@.to_multiset()
            &&& m.name@ == name@
            &&& m.total_size == total_size_of(files@)
            &&& m.created_ms == created_ms
            &&& bytes@ == crate::fields::fields_bytes(crate::fedwire::manifest_fields(m))
            &&& share.manifest_hash@ == content_key(bytes@)
            &&& share.wave@ == wave@
            &&& share.name@ == name@
            &&& share.total_size == m.total_size
            &&& share.file_count == files@.len()
            &&& share.uploader@ == uploader@
            &&& share.origin_domain@ == origin@
            &&& share.mirrored
            &&& share.created_ms == created_ms
        }),
{
    if files.len() == 0 {
        return Err(ApiError::bad_request("no files in upload"));
    }
    let mut total: u64 = 0;
    let mut i: usize = 0;
    while i < files.len()
        invariant
            i <= files.len(),
            total == total_size_of(files@.take(i as int)),
            total_size_of(files@) <= u64::MAX,
        decreases files.len() - i,
    {
        assert(files@.take(i + 1).drop_last() =~= files@.take(i as int));
        proof { lemma_total_prefix(files@, i + 1); }
        total = total + files[i].size;
        i += 1;
    }
    assert(files@.take(files.len() as int) =~= files@);
    let count = files.len() as u32;
    let sorted = sort_by_path(files);
    let m = FolderManifest { name: name.to_owned(), total_size: total, created_ms, files: sorted };
    let bytes = crate::fedwire::encode_manifest(&m);
    let hash = Cas::key_of(bytes.as_slice());
    let share = ShareMeta {
        manifest_hash: hash,
        wave: wave.to_owned(),
        name: name.to_owned(),
        total_size: total,
        file_count: count,
        uploader: uploader.to_owned(),
        origin_domain: origin.to_owned(),
        mirrored: true,
        created_ms,
    };
    Ok((bytes, share))
}

/// A prefix of the files weighs no more than all of them.
proof fn lemma_total_prefix(files: Seq<FileEntry>, n: int)
    requires
        0 <= n <= files.len(),
    ensures
        total_size_of(files.take(n)) <= total_size_of(files),
    decreases files.len() - n,
{
    if n < files.len() {
        lemma_total_prefix(files, n + 1);
        assert(files.take(n + 1).drop_last() =~= files.take(n));
    } else {
        assert(files.take(n) =~= files);
    }
}

} // verus!
