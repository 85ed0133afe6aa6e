//! The metadata service: where to ask, and how to read what it answers.

use vstd::prelude::*;
use vstd::string::*;
use crate::error::PaperError;
use crate::text::{chars_of, trim, trim_bounds};

verus! {

/// The address under which the metadata of a wallpaper is found.
pub const WALLHAVEN_API: &'static str = "https://wallhaven.cc/api/v1/w";

/// The metadata address for `id`.
pub open spec fn api_url_spec(id: Seq<char>) -> Seq<char> {
    WALLHAVEN_API@ + "/"@ + trim(id)
}

/// The metadata address for a wallpaper id; white space around the id is dropped.
pub fn api_url(id: &str) -> (address: String)
    ensures
        address@ == api_url_spec(id@),
{
    let chars = chars_of(id);
    let (from, to) = trim_bounds(&chars, 0, chars.len());
    assert(id@.subrange(0, id@.len() as int) == id@);
    let mut address = String::from_str(WALLHAVEN_API);
    address.append("/");
    address.append(id.substring_char(from, to));
    address
}

/// What the engine reads in a metadata reply.
pub struct ReplyView {
    /// The `error` member, in JSON notation.
    pub error: Option<Seq<char>>,
    /// Whether there is a `data` member.
    pub has_data: bool,
    /// The `path` member of `data`, where it is a string.
    pub image_path: Option<Seq<char>>,
}

/// A metadata reply, as far as the engine reads it.
#[derive(Debug)]
pub struct ApiReply {
    /// The `error` member, in JSON notation.
    pub error: Option<String>,
    /// Whether there is a `data` member.
    pub has_data: bool,
    /// The `path` member of `data`, where it is a string.
    pub image_path: Option<String>,
}

impl View for ApiReply {
    type V = ReplyView;

    open spec fn view(&self) -> ReplyView {
        ReplyView {
            error: match self.error {
                Some(text) => Some(text@),
                None => None,
            },
            has_data: self.has_data,
            image_path: match self.image_path {
                Some(text) => Some(text@),
                None => None,
            },
        }
    }
}

/// The error type of `serde_json`.
#[verifier::external_type_specification]
#[verifier::external_body]
pub struct ExJsonError(serde_json::Error);

/// The text of a string, where there is one.
pub open spec fn text_of(text: Option<String>) -> Option<Seq<char>> {
    match text {
        Some(t) => Some(t@),
        None => None,
    }
}

/// What the JSON text `body` holds at three member names, or `None` where
/// it is not JSON: the member `first` of the document in JSON notation,
/// whether the document has a member `outer`, and the member `inner` of
/// `outer` where that is a string.
pub uninterp spec fn members_of(
    body: Seq<char>,
    first: Seq<char>,
    outer: Seq<char>,
    inner: Seq<char>,
) -> Option<(Option<Seq<char>>, bool, Option<Seq<char>>)>;

/// Calls `serde_json::from_str` for a `serde_json::Value`, then `Value::get`
/// for the three member names, `Value::as_str` and the value's `to_string`.
/// The contract says that the outcome depends on the text and the member
/// names alone.
#[verifier::external_body]
fn read_members(body: &str, first: &str, outer: &str, inner: &str) -> (read: Result<
    (Option<String>, bool, Option<String>),
    serde_json::Error,
>)
    ensures
        members_of(body@, first@, outer@, inner@) == match read {
            Ok(members) => Some((text_of(members.0), members.1, text_of(members.2))),
            Err(_) => None,
        },
{
    let value: serde_json::Value = serde_json::from_str(body)?;
    let found = value.get(outer);
    Ok((
        value.get(first).map(serde_json::Value::to_string),
        found.is_some(),
        found.and_then(|o| o.get(inner)).and_then(serde_json::Value::as_str).map(str::to_owned),
    ))
}

/// What a metadata reply holds, or `None` where the body is not JSON: its
/// member `error`, whether it has a member `data`, and the member `path` of
/// `data`.
pub open spec fn reply_of(body: Seq<char>) -> Option<ReplyView> {
    match members_of(body, "error"@, "data"@, "path"@) {
        Some(members) => Some(
            ReplyView { error: members.0, has_data: members.1, image_path: members.2 },
        ),
        None => None,
    }
}

/// Reads a metadata reply: the members `error`, `data` and `path` of `data`.
pub(crate) fn parse_reply(body: &str) -> (parsed: Result<ApiReply, serde_json::Error>)
    ensures
        reply_of(body@) == match parsed {
            Ok(reply) => Some(reply@),
            Err(_) => None,
        },
{
    match read_members(body, "error", "data", "path") {
        Ok(members) => {
            let (error, has_data, image_path) = members;
            Ok(ApiReply { error, has_data, image_path })
        },
        Err(e) => Err(e),
    }
}

/// Calls the `to_string` of a `serde_json::Error`: its message. Nothing is
/// claimed of the text.
#[verifier::external_body]
pub(crate) fn json_error_text(error: &serde_json::Error) -> (text: String) {
    error.to_string()
}

/// Reads a parsed reply for a download: a reply with an `error` member is a
/// failure whatever else it holds; otherwise the image's address must be there.
pub fn image_link_in(reply: ApiReply) -> (link: Result<String, PaperError>)
    ensures
        match link {
            Ok(address) => reply@.error is None && reply@.image_path == Some(address@),
            Err(PaperError::Api(text)) => reply@.error == Some(text@),
            Err(PaperError::MissingImageLink) => reply@.error is None && reply@.image_path is None,
            Err(_) => false,
        },
{
    match reply.error {
        Some(text) => Err(PaperError::Api(text)),
        None => match reply.image_path {
            Some(path) => Ok(path),
            None => Err(PaperError::MissingImageLink),
        },
    }
}

/// Reads the body of a metadata reply for a download.
pub fn image_link(body: &str) -> (link: Result<String, PaperError>)
    ensures
        match link {
            Ok(address) => reply_of(body@) matches Some(reply) && reply.error is None
                && reply.image_path == Some(address@),
            Err(PaperError::InvalidJson(_)) => reply_of(body@) is None,
            Err(PaperError::Api(text)) => reply_of(body@) matches Some(reply) && reply.error
                == Some(text@),
            Err(PaperError::MissingImageLink) => reply_of(body@) matches Some(reply)
                && reply.error is None && reply.image_path is None,
            Err(_) => false,
        },
{
    match parse_reply(body) {
        Ok(reply) => image_link_in(reply),
        Err(e) => Err(PaperError::InvalidJson(json_error_text(&e))),
    }
}

} // verus!
