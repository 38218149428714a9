//! The computational parts of the request-handling exercises that
//! surround the maze engine: formatting of responses, token checking and
//! the hit counter.  Transport, I/O and routing live outside the library.

use vstd::prelude::*;
use vstd::string::StringExecFns;
use std::collections::HashMap;
use crate::render::dec_seq;
use crate::render::dec_string;

verus! {

/// The body of an echoed request, returned unchanged.
pub fn post_with_body(body_data: String) -> (r: String)
    ensures
        r == body_data,
{
    body_data
}

/// A form submission: a language tag and a body.
#[derive(Debug)]
pub struct PostForm {
    pub lang: String,
    pub body: String,
}

/// Render a form submission as `lang: <lang>, body: <body>`.
pub fn post(form_data: PostForm) -> (r: String)
    ensures
        r@ == "lang: "@ + form_data.lang@ + ", body: "@ + form_data.body@,
{
    let mut r = "lang: ".to_owned();
    r.append(form_data.lang.as_str());
    r.append(", body: ");
    r.append(form_data.body.as_str());
    proof {
        assert(r@ =~= "lang: "@ + form_data.lang@ + ", body: "@ + form_data.body@);
    }
    r
}

/// A JSON submission: a language tag and a body.
#[derive(Debug)]
pub struct PostJson {
    pub lang: String,
    pub body: String,
}

/// Render a JSON submission as `lang: <lang>, body: <body>`.
pub fn post_json(json_data: PostJson) -> (r: String)
    ensures
        r@ == "lang: "@ + json_data.lang@ + ", body: "@ + json_data.body@,
{
    let mut r = "lang: ".to_owned();
    r.append(json_data.lang.as_str());
    r.append(", body: ");
    r.append(json_data.body.as_str());
    proof {
        assert(r@ =~= "lang: "@ + json_data.lang@ + ", body: "@ + json_data.body@);
    }
    r
}

/// The headers accepted on guarded requests.
#[derive(Debug)]
pub struct GlobalHeaders {
    pub token: String,
}

/// Why a request's headers were rejected.
#[derive(Debug, Clone, Copy, PartialEq, Eq, Structural)]
pub enum HeaderError {
    TokenMiss,
    BadToken,
}

fn is_valid(key: &str) -> (b: bool)
    ensures
        b == (key@ == "123"@),
{
    let k = key.to_owned();
    let t = "123".to_owned();
    k == t
}

/// Decide a request from its `token` header: absent, wrong, or accepted.
pub fn check_token(token: Option<&str>) -> (r: Result<GlobalHeaders, HeaderError>)
    ensures
        token is None ==> r == Err::<GlobalHeaders, HeaderError>(HeaderError::TokenMiss),
        token matches Some(k) ==> (if k@ == "123"@ {
            r matches Ok(g) && g.token@ == k@
        } else {
            r == Err::<GlobalHeaders, HeaderError>(HeaderError::BadToken)
        }),
{
    match token {
        None => Err(HeaderError::TokenMiss),
        Some(key) => {
            if is_valid(key) {
                Ok(GlobalHeaders { token: key.to_owned() })
            } else {
                Err(HeaderError::BadToken)
            }
        },
    }
}

/// The answer to a request with a missing or wrong token.
pub fn token_error() -> (r: &'static str)
    ensures
        r@ == "token error"@,
{
    "token error"
}

/// The catch-all answer to a failed request.
pub fn internal_server_error() -> (r: &'static str)
    ensures
        r@ == "internal server error"@,
{
    "internal server error"
}

/// The echoed shape of an ordinary request.
#[derive(Debug)]
pub struct NormalResponse {
    pub id: i32,
    pub name: String,
    pub json_data: HashMap<String, String>,
    pub headers: GlobalHeaders,
}

/// Assemble the echo of an ordinary request; a missing name becomes the
/// empty string.
pub fn normal_request(
    id: i32,
    name: Option<String>,
    json_data: HashMap<String, String>,
    headers: GlobalHeaders,
) -> (r: NormalResponse)
    ensures
        r.id == id,
        name matches Some(s) ==> r.name == s,
        name is None ==> r.name@.len() == 0,
        r.json_data == json_data,
        r.headers == headers,
{
    let name = match name {
        Some(s) => s,
        None => String::new(),
    };
    NormalResponse { id, name, json_data, headers }
}

/// The process-wide hit counter.
#[derive(Debug)]
pub struct HitCount {
    pub count: usize,
}

/// Report the current hit count and advance it by one.
pub fn count(hit_count: &mut HitCount) -> (r: String)
    requires
        old(hit_count).count < usize::MAX,
    ensures
        final(hit_count).count == old(hit_count).count + 1,
        r@ == "hit count: "@ + dec_seq(old(hit_count).count as int),
{
    let current_count = hit_count.count;
    hit_count.count = hit_count.count + 1;
    let mut r = "hit count: ".to_owned();
    r.append(dec_string(current_count as u64).as_str());
    proof {
        assert(r@ =~= "hit count: "@ + dec_seq(current_count as int));
    }
    r
}

} // verus!
