//! What the oracle keeps of the page's network traffic: the key a request
//! is replayed under, the bytes of a response body, the path a response is
//! listed under, and which recorded headers a replayed response carries.
use crate::json::{index_key, is_true, is_true_at, lookup, Json};
use crate::text::{ascii_lower, push_str, str_eq, to_ascii_lower};
use vstd::prelude::*;
use vstd::utf8::encode_utf8;

verus! {

/// A replayed body is already decoded and whole, so the headers that
/// describe its transport encoding and length are dropped; every other
/// header is kept. Names compare without regard to ASCII case.
pub open spec fn kept_header(name: Seq<char>) -> bool {
    let lower = ascii_lower(name);
    lower != "content-encoding"@ && lower != "content-length"@ && lower != "transfer-encoding"@
}

pub fn replay_header(name: &str) -> (r: bool)
    ensures
        r == kept_header(name@),
{
    let lower = to_ascii_lower(name);
    !(str_eq(lower.as_str(), "content-encoding") || str_eq(lower.as_str(), "content-length") || str_eq(
        lower.as_str(),
        "transfer-encoding",
    ))
}

/// The text of a value, or a default for anything that is not text.
pub open spec fn text_or(v: Json, default: Seq<char>) -> Seq<char> {
    match v {
        Json::Text(s) => s@,
        _ => default,
    }
}

fn text_at(v: &Json, k: &str, default: &str) -> (r: String)
    ensures
        r@ == text_or(index_key(*v, k@), default@),
{
    match lookup(v, k) {
        Some(Json::Text(s)) => s.clone(),
        _ => String::from_str(default),
    }
}

/// The key a request is replayed under: its method (GET when unstated),
/// its URL and its body, one per line.
pub open spec fn request_key_of(request: Json) -> Seq<char> {
    text_or(index_key(request, "method"@), "GET"@) + "\n"@ + text_or(index_key(request, "url"@), Seq::empty())
        + "\n"@ + text_or(index_key(request, "postData"@), Seq::empty())
}

/// The key a request is replayed under.
pub fn request_key(request: &Json) -> (r: String)
    ensures
        r@ == request_key_of(*request),
{
    let mut r = text_at(request, "method", "GET");
    push_str(&mut r, "\n");
    match lookup(request, "url") {
        Some(Json::Text(s)) => push_str(&mut r, s.as_str()),
        _ => {},
    }
    push_str(&mut r, "\n");
    match lookup(request, "postData") {
        Some(Json::Text(s)) => push_str(&mut r, s.as_str()),
        _ => {},
    }
    assert(r@ =~= request_key_of(*request));
    r
}

#[verifier::external_type_specification]
#[verifier::external_body]
pub struct ExDecodeError(base64::DecodeError);

/// What base64's standard engine decodes a text to, or `None` where it
/// refuses the text.
pub uninterp spec fn base64_decoded(text: Seq<u8>) -> Option<Seq<u8>>;

/// Decodes with `base64::engine::general_purpose::STANDARD`'s `decode`
/// (standard alphabet, padding required). The contract names the result:
/// the bytes when the text is accepted, the refusal otherwise; the decoding
/// itself is not stated.
#[verifier::external_body]
pub(crate) fn decode_standard(text: &[u8]) -> (r: Result<Vec<u8>, base64::DecodeError>)
    ensures
        match r {
            Ok(v) => base64_decoded(text@) == Some(v@),
            Err(_) => base64_decoded(text@) is None,
        },
{
    base64::Engine::decode(&base64::engine::general_purpose::STANDARD, text)
}

/// Why a response body could not be read.
#[derive(Clone, Copy, Debug, PartialEq, Eq, Structural)]
pub enum BodyError {
    InvalidBase64,
}

/// The bytes of a response body as the browser reports it: its text
/// decoded from base64 when so marked, its text as UTF-8 otherwise.
pub open spec fn body_bytes(body: Json) -> Option<Seq<u8>> {
    let text = encode_utf8(text_or(index_key(body, "body"@), Seq::empty()));
    if is_true(index_key(body, "base64Encoded"@)) {
        base64_decoded(text)
    } else {
        Some(text)
    }
}

/// The bytes of a response body; refused when it is marked as base64 and
/// is not.
pub fn decode_body(body: &Json) -> (r: Result<Vec<u8>, BodyError>)
    ensures
        match body_bytes(*body) {
            Some(b) => r is Ok && r->Ok_0@ == b,
            None => r == Err::<Vec<u8>, BodyError>(BodyError::InvalidBase64),
        },
{
    let text = text_at(body, "body", "");
    let bytes = text.as_str().as_bytes();
    proof {
        reveal_strlit("");
        assert(text@ == text_or(index_key(*body, "body"@), Seq::empty()));
    }
    if is_true_at(lookup(body, "base64Encoded")) {
        match decode_standard(bytes) {
            Ok(v) => Ok(v),
            Err(_) => Err(BodyError::InvalidBase64),
        }
    } else {
        Ok(vstd::slice::slice_to_vec(bytes))
    }
}

/// The path and query that `url` parses out of an absolute URL, or `None`
/// where it refuses the text.
pub uninterp spec fn url_path_query(raw: Seq<char>) -> Option<(Seq<char>, Option<Seq<char>>)>;

/// Parses with `url::Url::parse` and reads the parsed URL's `path` and
/// `query`. The contract names the result, a function of the text alone;
/// URL parsing itself is not stated.
#[verifier::external_body]
fn parse_path_query(raw: &str) -> (r: Option<(String, Option<String>)>)
    ensures
        match r {
            Some(pq) => url_path_query(raw@) == Some(
                (
                    pq.0@,
                    match pq.1 {
                        Some(q) => Some(q@),
                        None => None,
                    },
                ),
            ),
            None => url_path_query(raw@) is None,
        },
{
    match url::Url::parse(raw) {
        Ok(url) => {
            let query = match url.query() {
                Some(q) => Some(q.to_string()),
                None => None,
            };
            Some((url.path().to_string(), query))
        },
        Err(_) => None,
    }
}

/// The path a response is listed under: the URL's path and query, or the
/// text as given where it is not a URL.
pub open spec fn listed_path(raw: Seq<char>) -> Seq<char> {
    match url_path_query(raw) {
        Some((path, Some(query))) => path + "?"@ + query,
        Some((path, None)) => path,
        None => raw,
    }
}

/// The path a response is listed under.
pub fn normalized_path(raw: &str) -> (r: String)
    ensures
        r@ == listed_path(raw@),
{
    match parse_path_query(raw) {
        Some((path, query)) => {
            let mut r = path;
            match query {
                Some(q) => {
                    push_str(&mut r, "?");
                    push_str(&mut r, q.as_str());
                },
                None => {},
            }
            r
        },
        None => String::from_str(raw),
    }
}

/// The base64 text `base64`'s standard engine writes for bytes.
pub uninterp spec fn base64_encoded(bytes: Seq<u8>) -> Seq<char>;

/// Encodes with `base64::engine::general_purpose::STANDARD`'s `encode`
/// (standard alphabet, padded). The contract names the result, a function
/// of the bytes alone; the encoding itself is not stated.
#[verifier::external_body]
fn encode_standard(bytes: &[u8]) -> (r: String)
    ensures
        r@ == base64_encoded(bytes@),
{
    base64::Engine::encode(&base64::engine::general_purpose::STANDARD, bytes)
}

/// A recorded response, as it is replayed: its status, the headers it
/// carries, and its body in base64.
#[derive(Clone, Debug)]
pub struct Response {
    pub status: u16,
    pub headers: Vec<(String, String)>,
    pub body: String,
}

/// The headers a replayed response carries, in order.
pub open spec fn kept_headers(headers: Seq<(String, String)>) -> Seq<(Seq<char>, Seq<char>)>
    decreases headers.len(),
{
    if headers.len() == 0 {
        seq![]
    } else {
        let h = headers.last();
        kept_headers(headers.drop_last()) + if kept_header(h.0@) {
            seq![(h.0@, h.1@)]
        } else {
            seq![]
        }
    }
}

/// The status a response is replayed with: the recorded one, 200 when none
/// was recorded, cut to sixteen bits.
pub open spec fn replayed_status(status: Option<u64>) -> u16 {
    match status {
        Some(s) => (s % 65536) as u16,
        None => 200,
    }
}

/// A response as the fixture keeps it, from what the browser recorded:
/// the status (200 when absent, cut to sixteen bits), the headers that
/// `replay_header` keeps, in order, and the body bytes in base64.
pub fn fixture_response(status: Option<u64>, headers: &Vec<(String, String)>, body: &[u8]) -> (r: Response)
    ensures
        r.status == replayed_status(status),
        r.headers@.map_values(|h: (String, String)| (h.0@, h.1@)) == kept_headers(headers@),
        r.body@ == base64_encoded(body@),
{
    let code: u16 = match status {
        Some(s) => (s % 65536) as u16,
        None => 200,
    };
    let mut kept: Vec<(String, String)> = Vec::new();
    let mut i: usize = 0;
    while i < headers.len()
        invariant
            i <= headers@.len(),
            kept@.map_values(|h: (String, String)| (h.0@, h.1@)) == kept_headers(headers@.take(i as int)),
        decreases headers@.len() - i,
    {
        proof {
            assert(headers@.take(i + 1).drop_last() =~= headers@.take(i as int));
        }
        if replay_header(headers[i].0.as_str()) {
            kept.push((headers[i].0.clone(), headers[i].1.clone()));
        }
        i += 1;
        assert(kept@.map_values(|h: (String, String)| (h.0@, h.1@)) =~= kept_headers(headers@.take(i as int)));
    }
    assert(headers@.take(i as int) =~= headers@);
    Response { status: code, headers: kept, body: encode_standard(body) }
}

} // verus!
