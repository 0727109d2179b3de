use vstd::prelude::*;

use crate::text::{
    chars_contain, chars_equal, chars_of, contains_seq, decimal, is_blank, lemma_trim_end_in,
    push_decimal, skip_char_back, trim_end_in, trim_white_space,
};

verus! {

/// The production API, which needs `--allow-production`.
pub const PRODUCTION_API_BASE: &'static str = "https://api.rpow2.com";

pub open spec fn slash_set() -> Set<char> {
    set!['/']
}

/// The host that `reqwest::Url::parse` finds in `input`, when it parses and
/// has one.
pub uninterp spec fn url_host(input: Seq<char>) -> Option<Seq<char>>;

/// Calls `reqwest::Url::parse` (the `url` crate's parser) and reads the
/// host of the parsed URL with `Url::host_str`.
/// Trusted: the result is `None` when the text does not parse as a URL or
/// the URL has no host, else the host text; it depends on `input` alone.
/// What the parser accepts and how it writes hosts is not stated.
#[verifier::external_body]
fn parse_url_host(input: &str) -> (host: Option<String>)
    ensures
        host is Some == url_host(input@) is Some,
        host matches Some(h) ==> url_host(input@) == Some(h@),
{
    match reqwest::Url::parse(input) {
        Ok(url) => url.host_str().map(String::from),
        Err(_) => None,
    }
}

/// The canonical reason phrase of an HTTP status code, when it has one.
pub uninterp spec fn canonical_reason(code: u16) -> Option<Seq<char>>;

/// Calls `reqwest::StatusCode::from_u16` and `StatusCode::canonical_reason`.
/// Trusted: the result is the reason phrase that the `http` crate's table
/// gives the code (`None` for a code without one); the table is not stated.
#[verifier::external_body]
fn status_reason(code: u16) -> (reason: Option<&'static str>)
    requires
        100 <= code <= 999,
    ensures
        reason is Some == canonical_reason(code) is Some,
        reason matches Some(r) ==> canonical_reason(code) == Some(r@),
{
    match reqwest::StatusCode::from_u16(code) {
        Ok(status) => status.canonical_reason(),
        Err(_) => None,
    }
}

/// `s` without trailing slashes (`str::trim_end_matches('/')`).
pub fn trim_end_slashes(s: &str) -> (t: &str)
    ensures
        t@ == trim_end_in(s@, slash_set()),
{
    let chars = chars_of(s);
    let k = skip_char_back(&chars, 0, chars.len(), '/');
    proof {
        lemma_trim_end_in(s@, 0, k as int, chars@.len() as int, slash_set());
        assert(s@.subrange(0, s@.len() as int) =~= s@);
    }
    s.substring_char(0, k)
}

/// The hosts that need no `--allow-production`: the loopback names and
/// any host whose name holds `staging`.
pub open spec fn is_default_allowed_host(host: Option<Seq<char>>) -> bool {
    match host {
        Some(h) => h == "localhost"@ || h == "127.0.0.1"@ || h == "::1"@ || contains_seq(h, "staging"@),
        None => false,
    }
}

/// True for a host that needs no `--allow-production`.
pub fn host_is_default_allowed(host: Option<&str>) -> (allowed: bool)
    ensures
        allowed == is_default_allowed_host(
            match host {
                Some(h) => Some(h@),
                None => None,
            },
        ),
{
    match host {
        Some(h) => chars_equal(h, "localhost") || chars_equal(h, "127.0.0.1") || chars_equal(h, "::1")
            || chars_contain(h, "staging"),
        None => false,
    }
}

/// True when the URL `api_base` has a host that needs no
/// `--allow-production`.
pub fn is_default_allowed_api_base(api_base: &str) -> (allowed: bool)
    ensures
        allowed == is_default_allowed_host(url_host(api_base@)),
{
    match parse_url_host(api_base) {
        Some(host) => host_is_default_allowed(Some(host.as_str())),
        None => host_is_default_allowed(None),
    }
}

/// Why an API base was refused.
#[derive(Debug, Clone, Copy, PartialEq, Eq)]
pub enum ApiBaseError {
    /// The production API without `--allow-production`.
    ProductionRequiresFlag,
    /// Neither local nor staging, without `--allow-production`.
    NotAllowed,
}

impl ApiBaseError {
    /// The message that the miner prints for this error.
    pub fn message(&self) -> (m: String)
        ensures
            *self == ApiBaseError::ProductionRequiresFlag ==> m@ == "https://api.rpow2.com requires --allow-production"@,
            *self == ApiBaseError::NotAllowed ==> m@ == "--api-base must be localhost or staging unless --allow-production is set"@,
    {
        match self {
            ApiBaseError::ProductionRequiresFlag => String::from_str("https://api.rpow2.com requires --allow-production"),
            ApiBaseError::NotAllowed => String::from_str("--api-base must be localhost or staging unless --allow-production is set"),
        }
    }
}

/// Decides whether the miner may talk to `api_base`: the production API only
/// with `allow_production`; without it, only local and staging hosts.
/// Trailing slashes of `api_base` are ignored.
pub fn validate_api_base(api_base: &str, allow_production: bool) -> (r: Result<(), ApiBaseError>)
    ensures
        ({
            let normalized = trim_end_in(api_base@, slash_set());
            let production = normalized == PRODUCTION_API_BASE@;
            &&& (production && !allow_production ==> r == Err::<(), ApiBaseError>(ApiBaseError::ProductionRequiresFlag))
            &&& (!(production && !allow_production) && (allow_production || is_default_allowed_host(url_host(normalized)))
                ==> r == Ok::<(), ApiBaseError>(()))
            &&& (!(production && !allow_production) && !(allow_production || is_default_allowed_host(url_host(normalized)))
                ==> r == Err::<(), ApiBaseError>(ApiBaseError::NotAllowed))
        }),
{
    let normalized = trim_end_slashes(api_base);
    if chars_equal(normalized, PRODUCTION_API_BASE) && !allow_production {
        return Err(ApiBaseError::ProductionRequiresFlag);
    }
    if allow_production || is_default_allowed_api_base(normalized) {
        return Ok(());
    }
    Err(ApiBaseError::NotAllowed)
}

/// True for a 2xx status code.
pub fn is_success_status(code: u16) -> (ok: bool)
    ensures
        ok == (200 <= code < 300),
{
    200 <= code && code < 300
}

/// How `StatusCode` writes itself: the code, a space, and the reason phrase
/// (`<unknown status code>` without one).
pub open spec fn status_text(code: u16) -> Seq<char> {
    decimal(code as nat) + seq![' '] + match canonical_reason(code) {
        Some(r) => r,
        None => "<unknown status code>"@,
    }
}

/// The text of a status code as the miner prints it.
pub fn describe_status(code: u16) -> (text: String)
    requires
        100 <= code <= 999,
    ensures
        text@ == status_text(code),
{
    status_text_with_reason(code, status_reason(code))
}

/// The code, a space, and `reason` (`<unknown status code>` without one).
pub fn status_text_with_reason(code: u16, reason: Option<&str>) -> (text: String)
    ensures
        text@ == decimal(code as nat) + seq![' '] + match reason {
            Some(r) => r@,
            None => "<unknown status code>"@,
        },
{
    let mut text = String::new();
    push_decimal(&mut text, code as u64);
    text.append(" ");
    match reason {
        Some(reason) => text.append(reason),
        None => text.append("<unknown status code>"),
    }
    proof {
        reveal_strlit(" ");
    }
    assert(text@ =~= decimal(code as nat) + seq![' '] + match reason {
        Some(r) => r@,
        None => "<unknown status code>"@,
    });
    text
}

/// A refused API request: the HTTP status, the error code of the body and
/// a message.
#[derive(Debug, PartialEq, Eq)]
pub struct ApiError {
    pub status: u16,
    pub code: Option<String>,
    pub message: String,
}

pub open spec fn text_or(value: Option<String>, fallback: Seq<char>) -> Seq<char> {
    match value {
        Some(s) => s@,
        None => fallback,
    }
}

impl ApiError {
    /// The error for a response with a status outside 2xx: the body's
    /// `error` as the code, its `message`, else the status's reason
    /// phrase, else `request failed`.
    pub fn from_response(status: u16, body_error: Option<String>, body_message: Option<String>) -> (e: ApiError)
        requires
            100 <= status <= 999,
        ensures
            e.status == status,
            e.code == body_error,
            e.message@ == (match body_message {
                Some(m) => m@,
                None => match canonical_reason(status) {
                    Some(r) => r,
                    None => "request failed"@,
                },
            }),
    {
        let reason = match body_message {
            Some(_) => None,
            None => status_reason(status),
        };
        ApiError::with_reason(status, body_error, body_message, reason)
    }

    /// The error for a status, the body's `error` and `message`, and the
    /// status's reason phrase: the message is the body's, else the reason
    /// phrase, else `request failed`.
    pub fn with_reason(status: u16, body_error: Option<String>, body_message: Option<String>, reason: Option<&str>) -> (e: ApiError)
        ensures
            e.status == status,
            e.code == body_error,
            e.message@ == (match body_message {
                Some(m) => m@,
                None => match reason {
                    Some(r) => r@,
                    None => "request failed"@,
                },
            }),
    {
        let message = match body_message {
            Some(m) => m,
            None => match reason {
                Some(reason) => String::from_str(reason),
                None => String::from_str("request failed"),
            },
        };
        ApiError { status, code: body_error, message }
    }

    /// `api request failed: status=.. code=.. message=..`, the code `-` when
    /// absent.
    pub fn describe(&self) -> (text: String)
        requires
            100 <= self.status <= 999,
        ensures
            text@ == "api request failed: status="@ + status_text(self.status) + " code="@ + text_or(
                self.code,
                "-"@,
            ) + " message="@ + self.message@,
    {
        let mut text = String::from_str("api request failed: status=");
        text.append(describe_status(self.status).as_str());
        text.append(" code=");
        match &self.code {
            Some(code) => text.append(code.as_str()),
            None => text.append("-"),
        }
        text.append(" message=");
        text.append(self.message.as_str());
        text
    }
}

/// The mint kept failing on the transport until no attempt was left.
#[derive(Debug, PartialEq, Eq)]
pub struct MintRetryExhausted {
    pub attempts: u32,
    pub message: String,
}

impl MintRetryExhausted {
    /// `mint retry exhausted after N attempts: ..`.
    pub fn describe(&self) -> (text: String)
        ensures
            text@ == "mint retry exhausted after "@ + decimal(self.attempts as nat) + " attempts: "@
                + self.message@,
    {
        let mut text = String::from_str("mint retry exhausted after ");
        push_decimal(&mut text, self.attempts as u64);
        text.append(" attempts: ");
        text.append(self.message.as_str());
        text
    }
}

/// Why the client could not be set up.
#[derive(Debug, Clone, Copy, PartialEq, Eq)]
pub enum ClientConfigError {
    MissingCookie,
}

impl ClientConfigError {
    pub fn message(&self) -> (m: String)
        ensures
            m@ == "--cookie or RPOW2_COOKIE must be provided"@,
    {
        String::from_str("--cookie or RPOW2_COOKIE must be provided")
    }
}

/// Where and as whom the client talks to the API.
#[derive(Debug, Clone, PartialEq, Eq)]
pub struct ClientSettings {
    pub api_base: String,
    pub cookie: String,
}

impl ClientSettings {
    /// Refuses a cookie that is empty or white space; drops trailing slashes
    /// from the API base.
    pub fn new(api_base: &str, cookie: String) -> (r: Result<ClientSettings, ClientConfigError>)
        ensures
            trim_white_space(cookie@).len() == 0 <==> r == Err::<ClientSettings, ClientConfigError>(
                ClientConfigError::MissingCookie,
            ),
            r matches Ok(settings) ==> settings.api_base@ == trim_end_in(api_base@, slash_set())
                && settings.cookie == cookie,
    {
        if is_blank(cookie.as_str()) {
            return Err(ClientConfigError::MissingCookie);
        }
        let api_base = String::from_str(trim_end_slashes(api_base));
        Ok(ClientSettings { api_base, cookie })
    }

    /// The URL of the API path `path` (such as `/me`).
    pub fn endpoint(&self, path: &str) -> (url: String)
        ensures
            url@ == self.api_base@ + path@,
    {
        let mut url = self.api_base.clone();
        url.append(path);
        url
    }
}

/// The body of `POST /mint`: the challenge and the nonce in decimal.
#[derive(Debug, PartialEq, Eq)]
pub struct MintRequest {
    pub challenge_id: String,
    pub solution_nonce: String,
}

impl MintRequest {
    pub fn new(challenge_id: &str, nonce: u64) -> (req: MintRequest)
        ensures
            req.challenge_id@ == challenge_id@,
            req.solution_nonce@ == decimal(nonce as nat),
    {
        let mut solution_nonce = String::new();
        push_decimal(&mut solution_nonce, nonce);
        assert(solution_nonce@ =~= decimal(nonce as nat));
        MintRequest { challenge_id: String::from_str(challenge_id), solution_nonce }
    }
}

} // verus!
