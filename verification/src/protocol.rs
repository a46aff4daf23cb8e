//! The message shapes exchanged once an envelope is opened: a tagged
//! request, a tagged response, and their mathematical views.

use vstd::prelude::*;

verus! {

/// Requests a client can send to the host.
#[derive(Debug, Clone, PartialEq, Eq)]
pub enum Request {
    /// Read one environment variable of the host process.
    GetEnv { name: String },
    /// Snapshot every environment variable of the host process.
    GetAllEnv,
    /// Set an environment variable in the host process.
    SetEnv { name: String, value: String },
    /// Deliver opaque text to the host's text sink.
    SendData { key: String, data: String },
    /// Connectivity check.
    Ping,
}

/// Responses the host sends back, exactly one per request.
#[derive(Debug, Clone, PartialEq, Eq)]
pub enum Response {
    /// The operation succeeded, with optional result text.
    Success { data: Option<String> },
    /// A snapshot of environment variables, in snapshot order.
    EnvVars { vars: Vec<(String, String)> },
    /// The operation failed; the message never echoes raw peer bytes.
    Error { message: String },
    /// Answer to `Ping`.
    Pong,
}

/// A request with each text field as its characters.
#[verifier::ext_equal]
pub enum RequestV {
    GetEnv { name: Seq<char> },
    GetAllEnv,
    SetEnv { name: Seq<char>, value: Seq<char> },
    SendData { key: Seq<char>, data: Seq<char> },
    Ping,
}

/// A response with each text field as its characters.
#[verifier::ext_equal]
pub enum ResponseV {
    Success { data: Option<Seq<char>> },
    EnvVars { vars: Seq<(Seq<char>, Seq<char>)> },
    Error { message: Seq<char> },
    Pong,
}

/// The characters of each pair of strings.
pub open spec fn pairs_view(v: Seq<(String, String)>) -> Seq<(Seq<char>, Seq<char>)> {
    v.map_values(|p: (String, String)| (p.0@, p.1@))
}

/// The characters of an optional string.
pub open spec fn opt_view(o: Option<String>) -> Option<Seq<char>> {
    match o {
        Some(s) => Some(s@),
        None => None,
    }
}

impl View for Request {
    type V = RequestV;

    open spec fn view(&self) -> RequestV {
        match self {
            Request::GetEnv { name } => RequestV::GetEnv { name: name@ },
            Request::GetAllEnv => RequestV::GetAllEnv,
            Request::SetEnv { name, value } => RequestV::SetEnv { name: name@, value: value@ },
            Request::SendData { key, data } => RequestV::SendData { key: key@, data: data@ },
            Request::Ping => RequestV::Ping,
        }
    }
}

impl View for Response {
    type V = ResponseV;

    open spec fn view(&self) -> ResponseV {
        match self {
            Response::Success { data } => ResponseV::Success { data: opt_view(*data) },
            Response::EnvVars { vars } => ResponseV::EnvVars { vars: pairs_view(vars@) },
            Response::Error { message } => ResponseV::Error { message: message@ },
            Response::Pong => ResponseV::Pong,
        }
    }
}

impl Response {
    /// A success response carrying `data`.
    pub fn success(data: Option<String>) -> (r: Response)
        ensures
            r@ == (ResponseV::Success { data: opt_view(data) }),
    {
        Response::Success { data }
    }

    /// An error response carrying `message`.
    pub fn error(message: String) -> (r: Response)
        ensures
            r@ == (ResponseV::Error { message: message@ }),
    {
        Response::Error { message }
    }

    /// An environment snapshot response carrying `vars`.
    pub fn env_vars(vars: Vec<(String, String)>) -> (r: Response)
        ensures
            r@ == (ResponseV::EnvVars { vars: pairs_view(vars@) }),
    {
        Response::EnvVars { vars }
    }
}

} // verus!
