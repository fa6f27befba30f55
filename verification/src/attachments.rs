//! Attachments: bytes live in the blob store, metadata in the wave store;
//! uploads and downloads are open to the wave's participants only.

use vstd::prelude::*;
use crate::common::{ApiError, BAD_REQUEST, FORBIDDEN, NOT_FOUND, PAYLOAD_TOO_LARGE, has_prefix, starts_with};
use crate::shares::{without_quotes, strip_quotes};
use crate::store::{AttachmentMeta, WaveMeta};
use crate::text::chars_of;
use crate::waves::{on_wave, is_participant};

verus! {

/// The largest attachment, in bytes.
pub const MAX_ATTACHMENT_BYTES: usize = 26214400;

/// The wave an attachment is uploaded to.
#[derive(Debug)]
pub struct UploadQuery {
    pub wave: String,
}

/// The wave whose attachments are listed.
#[derive(Debug)]
pub struct ListQuery {
    pub wave: String,
}

/// Access to a wave's attachments: the wave must exist and the user must
/// be on it.
pub fn require_participant(meta: Option<&WaveMeta>, user: &str) -> (r: Result<(), ApiError>)
    ensures
        match meta {
            None => r matches Err(e) && e.0 == NOT_FOUND && e.1@ == "no such wave"@,
            Some(m) => if on_wave(m.participants@, user@) {
                r is Ok
            } else {
                r matches Err(e) && e.0 == FORBIDDEN && e.1@ == "not a participant"@
            },
        },
{
    match meta {
        None => Err(ApiError::with_status(NOT_FOUND, "no such wave")),
        Some(m) => {
            if is_participant(&m.participants, user) {
                Ok(())
            } else {
                Err(ApiError::forbidden("not a participant"))
            }
        },
    }
}

/// The size checks on an upload: not empty, at most 25 MB.
pub fn check_attachment_size(size: usize) -> (r: Result<(), ApiError>)
    ensures
        size == 0 ==> (r matches Err(e) && e.0 == BAD_REQUEST && e.1@ == "empty file"@),
        size > MAX_ATTACHMENT_BYTES ==> (r matches Err(e) && e.0 == PAYLOAD_TOO_LARGE && e.1@
            == "attachment exceeds 25 MB"@),
        0 < size <= MAX_ATTACHMENT_BYTES ==> r is Ok,
{
    if size == 0 {
        return Err(ApiError::bad_request("empty file"));
    }
    if size > MAX_ATTACHMENT_BYTES {
        return Err(ApiError::with_status(PAYLOAD_TOO_LARGE, "attachment exceeds 25 MB"));
    }
    Ok(())
}

/// The name an upload is stored under: its file name, or `unnamed`.
pub fn upload_name(file_name: Option<&str>) -> (r: String)
    ensures
        r@ == match file_name {
            Some(n) => n@,
            None => "unnamed"@,
        },
{
    match file_name {
        Some(n) => n.to_owned(),
        None => "unnamed".to_owned(),
    }
}

/// The media type an upload is stored under: as sent, or
/// `application/octet-stream`.
pub fn upload_mime(content_type: Option<&str>) -> (r: String)
    ensures
        r@ == match content_type {
            Some(t) => t@,
            None => "application/octet-stream"@,
        },
{
    match content_type {
        Some(t) => t.to_owned(),
        None => "application/octet-stream".to_owned(),
    }
}

/// The metadata recorded for an upload.
pub fn attachment_meta(
    hash: String,
    wave: String,
    name: String,
    mime: String,
    size: u64,
    uploader: String,
    created_ms: u64,
) -> (m: AttachmentMeta)
    ensures
        m.hash@ == hash@,
        m.wave@ == wave@,
        m.name@ == name@,
        m.mime@ == mime@,
        m.size == size,
        m.uploader@ == uploader@,
        m.created_ms == created_ms,
{
    AttachmentMeta { hash, wave, name, mime, size, uploader, created_ms }
}

/// Images and text are shown inline; anything else is downloaded.
pub open spec fn previewable(mime: Seq<char>) -> bool {
    has_prefix(mime, "image/"@) || has_prefix(mime, "text/"@)
}

/// The `Content-Disposition` of a download.
pub open spec fn disposition_of(mime: Seq<char>, name: Seq<char>) -> Seq<char> {
    (if previewable(mime) { "inline"@ } else { "attachment"@ }) + "; filename=\""@ + without_quotes(name) + "\""@
}

pub fn content_disposition(mime: &str, name: &str) -> (r: String)
    ensures
        r@ == disposition_of(mime@, name@),
{
    let mut r = if starts_with(mime, "image/") || starts_with(mime, "text/") {
        "inline".to_owned()
    } else {
        "attachment".to_owned()
    };
    r.append("; filename=\"");
    let cs = chars_of(name);
    let clean = strip_quotes(cs.as_slice());
    r.append(clean.as_str());
    r.append("\"");
    r
}

/// Images and text are previewed in the browser, everything else is
/// downloaded: the disposition is `inline` exactly for a MIME type under
/// `image/` or `text/`, and names the file without its quote marks.
pub proof fn law_images_and_text_are_inline(mime: Seq<char>, name: Seq<char>)
    ensures
        (has_prefix(mime, "image/"@) || has_prefix(mime, "text/"@)) ==> disposition_of(mime, name) == "inline"@
            + "; filename=\""@ + without_quotes(name) + "\""@,
        !(has_prefix(mime, "image/"@) || has_prefix(mime, "text/"@)) ==> disposition_of(mime, name)
            == "attachment"@ + "; filename=\""@ + without_quotes(name) + "\""@,
{
}

} // verus!
