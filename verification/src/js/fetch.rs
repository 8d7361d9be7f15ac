//! `fetch`, and the host functions that a guest calls by their names.

use vstd::prelude::*;

use crate::host::{FetchRequest, FetchResponse, HostError, HostErrorView};
use crate::js::args::HostArgs;
use crate::js::calls;
use crate::js::calls::HostLimits;
use crate::js::transport;
use crate::text;

verus! {

/// A request as it comes from the guest, its body encoded.
#[derive(Debug)]
pub struct FetchHostRequest {
    pub url: String,
    pub method: String,
    pub headers: Vec<(String, String)>,
    pub body: Option<String>,
}

/// A response as it goes to the guest, its body encoded.
#[derive(Debug)]
pub struct FetchHostResponse {
    pub status: u16,
    pub headers: Vec<(String, String)>,
    pub body: String,
}

/// An error without a code.
pub open spec fn plain_error(message: Seq<char>) -> HostErrorView {
    HostErrorView { message, code: None }
}

/// What is said where there is no handler for `fetch`.
pub fn no_fetch_error() -> (r: HostError)
    ensures
        r@ == plain_error(
            "network is not available in this sandbox: no fetch handler registered"@,
        ),
{
    HostError::new("network is not available in this sandbox: no fetch handler registered")
}

pub fn fetch_timeout_error() -> (r: HostError)
    ensures
        r@ == plain_error("fetch timed out"@),
{
    HostError::new("fetch timed out")
}

/// Makes the request that the handler gets. A body that cannot be decoded is refused.
pub fn prepare_fetch(request: FetchHostRequest) -> (r: Result<FetchRequest, HostError>)
    ensures
        match request.body {
            None => r matches Ok(made) && made.body is None && made.url == request.url
                && made.method == request.method && made.headers == request.headers,
            Some(body) => match transport::base64_bytes(body@) {
                Some(bytes) => (r matches Ok(made) && made.url == request.url && made.method
                    == request.method && made.headers == request.headers && (made.body matches Some(
                    b,
                ) && b@ == bytes)),
                None => r matches Err(err) && err@ == plain_error(
                    "invalid fetch request body encoding"@,
                ),
            },
        },
{
    let body = match &request.body {
        None => None,
        Some(encoded) => match transport::base64_decode(encoded.as_str()) {
            Some(bytes) => Some(bytes),
            None => {
                return Err(HostError::new("invalid fetch request body encoding"));
            },
        },
    };
    Ok(
        FetchRequest {
            url: request.url,
            method: request.method,
            headers: request.headers,
            body,
        },
    )
}

/// What is said of an answer that is too large for the guest.
pub open spec fn too_big(limit: usize) -> HostErrorView {
    HostErrorView {
        message: "host response exceeded limit of "@ + text::decimal_text(limit as nat)
            + " bytes"@,
        code: Some("E2BIG"@),
    }
}

pub fn too_big_error(limit: usize) -> (r: HostError)
    ensures
        r@ == too_big(limit),
{
    let number = text::decimal(limit as u64);
    let message = text::concat3("host response exceeded limit of ", number.as_str(), " bytes");
    HostError::new(message.as_str()).with_code("E2BIG")
}

/// Makes the answer that the guest gets. Decoding its body gives the body of the response back.
pub fn finish_fetch(response: FetchResponse, limits: HostLimits) -> (r: Result<
    FetchHostResponse,
    HostError,
>)
    requires
        limits.host_response_bytes <= usize::MAX / 4,
    ensures
        if response.body@.len() > limits.fetch_response_bytes {
            r matches Err(err) && err@ == plain_error(
                "fetch response body exceeded limit of "@ + text::decimal_text(
                    limits.fetch_response_bytes as nat,
                ) + " bytes"@,
            )
        } else if response.body@.len() > calls::encodable(limits.host_response_bytes) {
            r matches Err(err) && err@ == too_big(limits.host_response_bytes)
        } else {
            r matches Ok(made) && made.status == response.status && made.headers
                == response.headers && made.body@ == transport::base64_text(response.body@)
                && transport::base64_bytes(made.body@) == Some(response.body@)
        },
{
    if response.body.len() > limits.fetch_response_bytes {
        let number = text::decimal(limits.fetch_response_bytes as u64);
        let message = text::concat3(
            "fetch response body exceeded limit of ",
            number.as_str(),
            " bytes",
        );
        return Err(HostError::new(message.as_str()));
    }
    if response.body.len() > calls::encodable_bytes(limits.host_response_bytes) {
        return Err(too_big_error(limits.host_response_bytes));
    }
    let body = transport::base64_encode(response.body.as_slice());
    Ok(FetchHostResponse { status: response.status, headers: response.headers, body })
}

/// The name of the host function that a guest calls.
pub fn called_global(args: &HostArgs) -> (r: Result<String, HostError>)
    ensures
        match args.text_in("name"@) {
            Some(name) => r matches Ok(n) && n@ == name,
            None => r matches Err(err) && err@ == plain_error(
                "global host call requires a string name"@,
            ),
        },
{
    match args.string_arg("name") {
        Ok(name) => Ok(name),
        Err(_) => Err(HostError::new("global host call requires a string name")),
    }
}

pub fn unknown_global_error(name: &str) -> (r: HostError)
    ensures
        r@ == plain_error("unknown global '"@ + name@ + "'"@),
{
    let message = text::concat3("unknown global '", name, "'");
    HostError::new(message.as_str())
}

pub fn global_timeout_error(name: &str) -> (r: HostError)
    ensures
        r@ == plain_error("global '"@ + name@ + "' timed out"@),
{
    let message = text::concat3("global '", name, "' timed out");
    HostError::new(message.as_str())
}

} // verus!
