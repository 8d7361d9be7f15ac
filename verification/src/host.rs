//! What a host gives to sandboxed JavaScript: errors, and the requests and answers of `fetch`.

use vstd::prelude::*;

use crate::text;

verus! {

/// Request passed to an embedder-provided JavaScript `fetch` handler.
#[derive(Debug, Clone, PartialEq, Eq)]
pub struct FetchRequest {
    /// Absolute or relative URL string supplied by the guest.
    pub url: String,
    /// HTTP method normalized by the guest fetch glue.
    pub method: String,
    /// Request headers as normalized `(name, value)` pairs.
    pub headers: Vec<(String, String)>,
    /// Optional request body bytes.
    pub body: Option<Vec<u8>>,
}

/// Response returned by an embedder-provided JavaScript `fetch` handler.
#[derive(Debug, Clone, PartialEq, Eq)]
pub struct FetchResponse {
    /// HTTP status code.
    pub status: u16,
    /// Response headers as `(name, value)` pairs.
    pub headers: Vec<(String, String)>,
    /// Response body bytes.
    pub body: Vec<u8>,
}

/// Error from registering host globals on a live sandbox.
#[derive(Debug, Clone, PartialEq, Eq)]
pub struct JsGlobalError {
    message: String,
}

impl JsGlobalError {
    pub closed spec fn view(&self) -> Seq<char> {
        self.message@
    }

    pub fn new(message: String) -> (r: Self)
        ensures
            r@ == message@,
    {
        JsGlobalError { message }
    }

    pub fn message(&self) -> (r: &str)
        ensures
            r@ == self@,
    {
        self.message.as_str()
    }
}

/// What there is to see of an error from the host: its message, and its code where it has one.
#[verifier::ext_equal]
pub struct HostErrorView {
    pub message: Seq<char>,
    pub code: Option<Seq<char>>,
}

/// The code of an error.
pub open spec fn code_view(code: Option<String>) -> Option<Seq<char>> {
    match code {
        Some(code) => Some(code@),
        None => None,
    }
}

/// Error returned by an embedder host global or fetch handler.
#[derive(Debug, Clone, PartialEq, Eq)]
pub struct HostError {
    /// Human-readable error message exposed as the JavaScript `Error.message`.
    pub message: String,
    /// Optional machine-readable code exposed as the JavaScript `Error.code`.
    pub code: Option<String>,
}

impl HostError {
    pub open spec fn view(&self) -> HostErrorView {
        HostErrorView { message: self.message@, code: code_view(self.code) }
    }

    /// Creates a host error with no code.
    pub fn new(message: &str) -> (r: Self)
        ensures
            r@ == (HostErrorView { message: message@, code: None }),
    {
        HostError { message: text::copy(message), code: None }
    }

    /// Attaches a machine-readable error code.
    pub fn with_code(self, code: &str) -> (r: Self)
        ensures
            r@ == (HostErrorView { message: self@.message, code: Some(code@) }),
    {
        HostError { message: self.message, code: Some(text::copy(code)) }
    }
}

/// Error returned by an embedder syscall.
#[derive(Debug, Clone, PartialEq, Eq)]
pub struct SyscallError {
    /// Human-readable error message exposed as the JavaScript `Error.message`.
    pub message: String,
    /// Optional machine-readable code exposed as the JavaScript `Error.code`.
    pub code: Option<String>,
}

impl SyscallError {
    pub open spec fn view(&self) -> HostErrorView {
        HostErrorView { message: self.message@, code: code_view(self.code) }
    }

    /// Creates a syscall error with no code.
    pub fn new(message: &str) -> (r: Self)
        ensures
            r@ == (HostErrorView { message: message@, code: None }),
    {
        SyscallError { message: text::copy(message), code: None }
    }

    /// Attaches a machine-readable error code.
    pub fn with_code(self, code: &str) -> (r: Self)
        ensures
            r@ == (HostErrorView { message: self@.message, code: Some(code@) }),
    {
        SyscallError { message: self.message, code: Some(text::copy(code)) }
    }
}

} // verus!
