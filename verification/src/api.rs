//! The OpenAI-compatible API: endpoints, request headers, and reading the
//! replies (whole, or streamed as server-sent events).

use vstd::prelude::*;
use crate::text::{
    concat_str, lemma_trail_len_bound, owned, strings_view, trail_len, trim_class, trim_end_by, CharClass,
};

verus! {

/// The base URL without trailing `/`, followed by `path`.
pub open spec fn endpoint_of(base_url: Seq<char>, path: Seq<char>) -> Seq<char> {
    trim_end_by(base_url, CharClass::Is('/')) + path
}

fn endpoint(base_url: &str, path: &str) -> (r: String)
    ensures
        r@ == endpoint_of(base_url@, path@),
{
    concat_str(trim_class(base_url, CharClass::Is('/'), false, true), path)
}

/// The chat-completions endpoint under a base URL.
pub fn chat_completions_url(base_url: &str) -> (r: String)
    ensures
        r@ == endpoint_of(base_url@, "/v1/chat/completions"@),
{
    endpoint(base_url, "/v1/chat/completions")
}

/// The model-list endpoint under a base URL.
pub fn models_url(base_url: &str) -> (r: String)
    ensures
        r@ == endpoint_of(base_url@, "/v1/models"@),
{
    endpoint(base_url, "/v1/models")
}

/// A trailing `/` on the base URL does not change an endpoint.
pub proof fn trailing_slash_is_ignored(base_url: Seq<char>, path: Seq<char>)
    ensures
        endpoint_of(base_url.push('/'), path) == endpoint_of(base_url, path),
{
    let k = CharClass::Is('/');
    let b = base_url.push('/');
    assert(b.drop_last() =~= base_url);
    assert(trail_len(b, k) == 1 + trail_len(base_url, k));
    lemma_trail_len_bound(base_url, k);
    assert(b.take(b.len() - trail_len(b, k)) =~= base_url.take(
        base_url.len() - trail_len(base_url, k),
    ));
}

/// The `Authorization` header value for an API key.
pub fn bearer(api_key: &str) -> (r: String)
    ensures
        r@ == "Bearer "@ + api_key@,
{
    concat_str("Bearer ", api_key)
}

/// Why an API call gave no answer.
#[derive(Debug, Clone)]
pub enum ApiError {
    /// The server answered with a failure status (its text, and the body).
    Http(String, String),
    /// The body was not JSON.
    Decode,
    /// The JSON held no answer text.
    MissingContent,
}

pub open spec fn error_message_of(e: ApiError) -> Seq<char> {
    match e {
        ApiError::Http(status, body) => "API 請求失敗 ("@ + status@ + "): "@ + body@,
        ApiError::Decode => "error decoding response body"@,
        ApiError::MissingContent => "無法解析 API 回應"@,
    }
}

impl ApiError {
    /// The message shown to the user.
    pub fn message(&self) -> (r: String)
        ensures
            r@ == error_message_of(*self),
    {
        match self {
            ApiError::Http(status, body) => {
                let a = concat_str("API 請求失敗 (", status.as_str());
                let b = concat_str(a.as_str(), "): ");
                concat_str(b.as_str(), body.as_str())
            },
            ApiError::Decode => owned("error decoding response body"),
            ApiError::MissingContent => owned("無法解析 API 回應"),
        }
    }
}

pub open spec fn opt_text(o: Option<Option<String>>) -> Option<Option<Seq<char>>> {
    match o {
        Some(Some(s)) => Some(Some(s@)),
        Some(None) => Some(None),
        None => None,
    }
}

/// The text at `choices[0].<part>.content` of a JSON document: `None` when
/// the text is not JSON, `Some(None)` when that place holds no string.
pub uninterp spec fn json_choice_content(json: Seq<char>, part: Seq<char>) -> Option<
    Option<Seq<char>>,
>;

/// Calls `serde_json::from_str::<serde_json::Value>` and reads the string at
/// `choices[0][part]["content"]` with `Value`'s indexing and `as_str`.
/// Trusted: the result is a function of the two texts alone; what JSON text
/// gives which result is not written out.
#[verifier::external_body]
pub(crate) fn choice_content(json: &str, part: &str) -> (r: Option<Option<String>>)
    ensures
        opt_text(r) == json_choice_content(json@, part@),
{
    match serde_json::from_str::<serde_json::Value>(json) {
        Ok(v) => Some(v["choices"][0][part]["content"].as_str().map(|c| c.to_string())),
        Err(_) => None,
    }
}

/// The answer of a whole (non-streamed) completion, from what was read of
/// its `choices[0].message.content`.
pub open spec fn completion_of(parsed: Option<Option<Seq<char>>>) -> Result<Seq<char>, ApiError> {
    match parsed {
        Some(Some(c)) => Ok(c),
        Some(None) => Err(ApiError::MissingContent),
        None => Err(ApiError::Decode),
    }
}

pub open spec fn result_view(r: Result<String, ApiError>) -> Result<Seq<char>, ApiError> {
    match r {
        Ok(s) => Ok(s@),
        Err(e) => Err(e),
    }
}

/// The answer, or why there is none, from what was read of the JSON body.
pub fn completion_from(parsed: Option<Option<String>>) -> (r: Result<String, ApiError>)
    ensures
        result_view(r) == completion_of(opt_text(parsed)),
{
    match parsed {
        Some(Some(c)) => Ok(c),
        Some(None) => Err(ApiError::MissingContent),
        None => Err(ApiError::Decode),
    }
}

/// The answer of a completion request: a failure status is an error with
/// the body; else the body's `choices[0].message.content`.
pub open spec fn completion_reply(ok: bool, status: Seq<char>, body: Seq<char>) -> Result<
    Seq<char>,
    Seq<char>,
> {
    if !ok {
        Err("API 請求失敗 ("@ + status + "): "@ + body)
    } else {
        match completion_of(json_choice_content(body, "message"@)) {
            Ok(c) => Ok(c),
            Err(e) => Err(error_message_of(e)),
        }
    }
}

/// Reads the reply to a (non-streamed) chat completion request.
pub fn completion_result(status_ok: bool, status: &str, body: &str) -> (r: Result<String, ApiError>)
    ensures
        !status_ok ==> (r matches Err(ApiError::Http(s, b)) && s@ == status@ && b@ == body@),
        status_ok ==> result_view(r) == completion_of(json_choice_content(body@, "message"@)),
{
    if !status_ok {
        return Err(ApiError::Http(owned(status), owned(body)));
    }
    completion_from(choice_content(body, "message"))
}

/// The length of the array at `data` of a JSON document: `None` when the
/// text is not JSON, `Some(None)` when `data` is not an array.
pub uninterp spec fn json_data_count(json: Seq<char>) -> Option<Option<usize>>;

/// The string at `data[i].id` of a JSON document, if there is one there.
pub uninterp spec fn json_data_id(json: Seq<char>, i: usize) -> Option<Seq<char>>;

/// Calls `serde_json::from_str::<serde_json::Value>` and reads the length
/// of `data` with `Value`'s indexing and `as_array`. Trusted: the result is a
/// function of the text alone; which JSON text gives which result is not
/// written out.
#[verifier::external_body]
fn data_count(json: &str) -> (r: Option<Option<usize>>)
    ensures
        r == json_data_count(json@),
{
    match serde_json::from_str::<serde_json::Value>(json) {
        Ok(v) => Some(v["data"].as_array().map(|a| a.len())),
        Err(_) => None,
    }
}

/// Calls `serde_json::from_str::<serde_json::Value>` and reads the string
/// at `data[i].id` with `Value`'s indexing and `as_str`. Trusted: the result
/// is a function of the text and `i` alone; which JSON text gives which
/// result is not written out.
#[verifier::external_body]
fn data_id(json: &str, i: usize) -> (r: Option<String>)
    ensures
        r matches Some(s) ==> json_data_id(json@, i) == Some(s@),
        r is None ==> json_data_id(json@, i) is None,
{
    match serde_json::from_str::<serde_json::Value>(json) {
        Ok(v) => v["data"][i]["id"].as_str().map(|s| s.to_string()),
        Err(_) => None,
    }
}

/// The ids present among the first `n` elements of `data`, in order.
pub open spec fn present_ids(json: Seq<char>, n: int) -> Seq<Seq<char>>
    decreases n,
{
    if n <= 0 {
        seq![]
    } else {
        let r = present_ids(json, n - 1);
        match json_data_id(json, (n - 1) as usize) {
            Some(s) => r.push(s),
            None => r,
        }
    }
}

/// The model names of a models reply: the string ids of the elements of
/// `data` (none when `data` is not an array); `None` when it is not JSON.
pub open spec fn models_of(json: Seq<char>) -> Option<Seq<Seq<char>>> {
    match json_data_count(json) {
        Some(Some(n)) => Some(present_ids(json, n as int)),
        Some(None) => Some(seq![]),
        None => None,
    }
}

/// The model names listed in a JSON body, or a decoding error.
pub fn models_in(body: &str) -> (r: Result<Vec<String>, ApiError>)
    ensures
        match r {
            Ok(v) => models_of(body@) == Some(strings_view(v@)),
            Err(e) => models_of(body@) is None && e is Decode,
        },
{
    match data_count(body) {
        None => Err(ApiError::Decode),
        Some(None) => {
            let v: Vec<String> = Vec::new();
            assert(strings_view(v@) =~= seq![]);
            Ok(v)
        },
        Some(Some(n)) => {
            let mut out: Vec<String> = Vec::new();
            let mut i: usize = 0;
            assert(strings_view(out@) =~= seq![]);
            while i < n
                invariant
                    i <= n,
                    strings_view(out@) == present_ids(body@, i as int),
                decreases n - i,
            {
                match data_id(body, i) {
                    Some(s) => {
                        let ghost prev = out@;
                        let ghost sv = s@;
                        out.push(s);
                        assert(strings_view(out@) =~= strings_view(
                            prev,
                        ).push(sv));
                    },
                    None => {},
                }
                i += 1;
            }
            Ok(out)
        },
    }
}

/// Reads the reply to a model-list request: a failure status is an error
/// with the body; else the `id`s of the elements of `data`.
pub fn models_result(status_ok: bool, status: &str, body: &str) -> (r: Result<Vec<String>, ApiError>)
    ensures
        !status_ok ==> (r matches Err(ApiError::Http(s, b)) && s@ == status@ && b@ == body@),
        status_ok ==> match r {
            Ok(v) => models_of(body@) == Some(strings_view(v@)),
            Err(e) => models_of(body@) is None && e is Decode,
        },
{
    if !status_ok {
        return Err(ApiError::Http(owned(status), owned(body)));
    }
    models_in(body)
}

} // verus!
