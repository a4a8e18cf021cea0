//! The wire format of `POST /v1/systemone`, as plain values, and the parts of
//! a minimal client that do not touch the network. Knows nothing about ants.
//!
//! Probabilities and confidences are parts per million.

use vstd::prelude::*;

use crate::decisions::NANO_USD_PER_INPUT_TOKEN;
use crate::text::{decimal, decimal_string, is_blank, joined, trimmed, trimmed_text};

verus! {

/// The alias that always points at the current model.
pub const MODEL: &'static str = "jev-latest";

/// Where requests are sent, relative to the base URL.
pub const ENDPOINT_PATH: &'static str = "/v1/systemone";

/// How long one request may take, in milliseconds.
pub const REQUEST_TIMEOUT_MS: u64 = 5000;

/// One question put to the model.
#[derive(Clone, Debug)]
pub enum Question {
    /// Pick one of up to 255 named options: key and description, in the
    /// order they were offered.
    Choice { instructions: String, criteria: Vec<(String, String)> },
    /// Yes/no with a probability.
    Noul { instructions: String, criteria: Option<String> },
}

/// What an ant's request says about it. Absent entries are left out of the
/// state entirely rather than sent empty.
#[derive(Clone, Debug)]
pub struct RequestState {
    pub order_from_the_ant_queen: Option<String>,
    pub carrying: Option<String>,
    pub vision: String,
    pub nearby: Vec<String>,
}

/// A request body.
#[derive(Clone, Debug)]
pub struct SystemOneRequest {
    pub model: String,
    /// Anything the model should judge. For an ant this is what it can see.
    pub state: RequestState,
    /// Questions, each under its key; evaluated independently.
    pub questions: Vec<(String, Question)>,
}

/// One answer.
#[derive(Clone, Debug)]
pub enum Answer {
    Choice {
        /// The option with the highest probability.
        choice: String,
        /// The full distribution, option by option.
        probabilities: Vec<(String, u32)>,
        /// How concentrated the distribution is.
        confidence: u32,
    },
    Noul { noul: u32 },
    /// Anything not modelled yet.
    Unsupported,
}

/// What a request cost.
#[derive(Clone, Copy, PartialEq, Eq, Debug, Structural)]
pub struct Usage {
    pub input_tokens: u32,
    pub output_tokens: u32,
}

impl Usage {
    /// What this request cost, in nano-dollars: input tokens are billed at
    /// $0.042 per million, output is free.
    pub fn cost_nano_usd(&self) -> (c: u64)
        ensures
            c == self.input_tokens * NANO_USD_PER_INPUT_TOKEN,
    {
        self.input_tokens as u64 * NANO_USD_PER_INPUT_TOKEN
    }
}

/// A response body.
#[derive(Clone, Debug)]
pub struct SystemOneResponse {
    /// The concrete version behind the alias.
    pub model: String,
    /// Answers, each under the key of its question.
    pub answers: Vec<(String, Answer)>,
    pub usage: Usage,
}

/// No key occurs twice: the entries of a map, keyed by name.
pub open spec fn distinct_keys<V>(s: Seq<(String, V)>) -> bool {
    forall|i: int, j: int| 0 <= i < j < s.len() ==> #[trigger] s[i].0@ != #[trigger] s[j].0@
}

/// Every option of a choice under its own key.
pub open spec fn options_distinct(q: Question) -> bool {
    match q {
        Question::Choice { criteria, .. } => distinct_keys(criteria@),
        _ => true,
    }
}

/// Every option of a distribution under its own key.
pub open spec fn weights_distinct(a: Answer) -> bool {
    match a {
        Answer::Choice { probabilities, .. } => distinct_keys(probabilities@),
        _ => true,
    }
}

impl SystemOneRequest {
    /// A request as the wire form has it: every question under its own key,
    /// and every option of a choice under its own key.
    pub open spec fn wf(&self) -> bool {
        &&& distinct_keys(self.questions@)
        &&& forall|i: int| 0 <= i < self.questions@.len() ==> options_distinct(#[trigger] self.questions@[i].1)
    }
}

impl SystemOneResponse {
    /// A response as the wire form has it: every answer under its own key,
    /// and every option of a distribution under its own key.
    pub open spec fn wf(&self) -> bool {
        &&& distinct_keys(self.answers@)
        &&& forall|i: int| 0 <= i < self.answers@.len() ==> weights_distinct(#[trigger] self.answers@[i].1)
    }
}

/// What can go wrong with a request.
#[derive(Clone, Debug)]
pub enum ApiError {
    /// Never reached the server: no network, DNS, CORS, timeout.
    Transport(String),
    /// 401 — the key is wrong or gone.
    Unauthorized,
    /// 422 — we built a request the API rejects.
    Invalid(String),
    /// 429 — too many requests.
    RateLimited,
    /// 529 — the service is overloaded.
    Overloaded,
    Status(u16, String),
    /// The answer arrived but did not look the way the docs describe.
    Decode(String),
}

impl ApiError {
    /// The error a failed status code stands for.
    pub fn from_status(status: u16, body: String) -> (e: ApiError)
        ensures
            status == 401 ==> e is Unauthorized,
            status == 422 ==> (e matches ApiError::Invalid(b) && b == body),
            status == 429 ==> e is RateLimited,
            status == 529 ==> e is Overloaded,
            status != 401 && status != 422 && status != 429 && status != 529 ==> (e matches ApiError::Status(
                s,
                b,
            ) && s == status && b == body),
    {
        match status {
            401 => ApiError::Unauthorized,
            422 => ApiError::Invalid(body),
            429 => ApiError::RateLimited,
            529 => ApiError::Overloaded,
            other => ApiError::Status(other, body),
        }
    }

    /// What a finished round trip means before its body is read: an answer
    /// that is not a success is the error its status names.
    pub fn check_status(ok: bool, status: u16, body: String) -> (r: Result<(), ApiError>)
        ensures
            ok <==> r is Ok,
            r matches Err(e) ==> {
                &&& status == 401 ==> e is Unauthorized
                &&& status == 422 ==> (e matches ApiError::Invalid(b) && b == body)
                &&& status == 429 ==> e is RateLimited
                &&& status == 529 ==> e is Overloaded
                &&& status != 401 && status != 422 && status != 429 && status != 529 ==> (e matches ApiError::Status(
                    s,
                    b,
                ) && s == status && b == body)
            },
    {
        if ok {
            Ok(())
        } else {
            Err(ApiError::from_status(status, body))
        }
    }

    /// Whether waiting and asking again is worth it.
    pub fn is_transient(&self) -> (b: bool)
        ensures
            b == (self is Transport || self is RateLimited || self is Overloaded),
    {
        matches!(self, ApiError::Transport(_) | ApiError::RateLimited | ApiError::Overloaded)
    }

    /// The sentence the error is reported with.
    pub open spec fn message_text(self) -> Seq<char> {
        match self {
            ApiError::Transport(d) => "the request never got through: "@ + d@,
            ApiError::Unauthorized => "401 \u{2014} TYPESAFE_API_KEY is missing or invalid"@,
            ApiError::Invalid(d) => "422 \u{2014} the API rejected the request: "@ + d@,
            ApiError::RateLimited => "429 \u{2014} rate limited (1200 requests per minute)"@,
            ApiError::Overloaded => "529 \u{2014} the service is overloaded"@,
            ApiError::Status(s, d) => "HTTP "@ + decimal(s as nat) + ": "@ + d@,
            ApiError::Decode(d) => "could not read the answer: "@ + d@,
        }
    }

    pub fn message(&self) -> (m: String)
        ensures
            m@ == self.message_text(),
    {
        match self {
            ApiError::Transport(detail) => joined("the request never got through: ", detail.as_str()),
            ApiError::Unauthorized => String::from_str("401 \u{2014} TYPESAFE_API_KEY is missing or invalid"),
            ApiError::Invalid(detail) => joined(
                "422 \u{2014} the API rejected the request: ",
                detail.as_str(),
            ),
            ApiError::RateLimited => String::from_str("429 \u{2014} rate limited (1200 requests per minute)"),
            ApiError::Overloaded => String::from_str("529 \u{2014} the service is overloaded"),
            ApiError::Status(status, detail) => {
                let mut s = String::from_str("HTTP ");
                let number = decimal_string(*status as u32);
                s.append(number.as_str());
                s.append(": ");
                s.append(detail.as_str());
                s
            },
            ApiError::Decode(detail) => joined("could not read the answer: ", detail.as_str()),
        }
    }
}

/// A key as it is used: without surrounding whitespace, and none at all when
/// nothing is left, wherever it came from (the environment or the dialog).
pub fn usable_key(raw: &str) -> (k: Option<String>)
    ensures
        trimmed_text(raw@).len() == 0 ==> k is None,
        trimmed_text(raw@).len() > 0 ==> (k matches Some(key) && key@ == trimmed_text(raw@)),
{
    if is_blank(raw) {
        None
    } else {
        Some(String::from_str(trimmed(raw)))
    }
}

/// A minimal TypeSafe client: where to send, and the key to send with. The
/// key never leaves this struct except in the authorization header.
pub struct Client {
    base_url: String,
    key: String,
}

impl Client {
    pub closed spec fn base(self) -> Seq<char> {
        self.base_url@
    }

    pub closed spec fn secret(self) -> Seq<char> {
        self.key@
    }

    /// A client for `base_url` with `key`.
    pub fn new(base_url: String, key: String) -> (c: Client)
        ensures
            c.base() == base_url@,
            c.secret() == key@,
    {
        Client { base_url, key }
    }

    /// Where requests go.
    pub fn url(&self) -> (u: String)
        ensures
            u@ == self.base() + ENDPOINT_PATH@,
    {
        joined(self.base_url.as_str(), ENDPOINT_PATH)
    }

    /// The value of the `Authorization` header.
    pub fn authorization(&self) -> (a: String)
        ensures
            a@ == "Bearer "@ + self.secret(),
    {
        joined("Bearer ", self.key.as_str())
    }
}

} // verus!
