//! The plain values that requests and answers are made of.

use crate::bytes::{ascii, literal, to_vec};
use vstd::prelude::*;

verus! {

/// The request methods that the coordinator answers.
#[derive(Clone, Copy, PartialEq, Eq, Debug, Structural)]
pub enum Method {
    Get,
    Head,
    Put,
    Delete,
    Post,
}

/// The request was carried out.
pub const OK: u16 = 200;

/// The body was stored.
pub const CREATED: u16 = 201;

/// The request was carried out and there is nothing to say.
pub const NO_CONTENT: u16 = 204;

/// The key is elsewhere; the answer says where.
pub const FOUND: u16 = 302;

/// The request cannot be understood.
pub const BAD_REQUEST: u16 = 400;

/// The key is live and is not written over.
pub const UNAUTHORIZED: u16 = 401;

/// The request is not allowed in the state that the key or the upload is in.
pub const FORBIDDEN: u16 = 403;

/// The key is not there.
pub const NOT_FOUND: u16 = 404;

/// The method of the request is none that the coordinator answers.
pub const METHOD_NOT_ALLOWED: u16 = 405;

/// The request does not say how long its body is, or says zero.
pub const LENGTH_REQUIRED: u16 = 411;

/// The listing would hold more keys than a listing may.
pub const PAYLOAD_TOO_LARGE: u16 = 413;

/// A volume did not do what it was asked.
pub const INTERNAL_ERROR: u16 = 500;

/// One header of an answer.
#[derive(Clone, PartialEq, Eq, Debug)]
pub struct Header {
    pub name: Vec<u8>,
    pub value: Vec<u8>,
}

impl View for Header {
    type V = (Seq<u8>, Seq<u8>);

    open spec fn view(&self) -> (Seq<u8>, Seq<u8>) {
        (self.name@, self.value@)
    }
}

/// The headers of an answer as pairs of name and value.
pub open spec fn header_views(headers: Seq<Header>) -> Seq<(Seq<u8>, Seq<u8>)> {
    Seq::new(headers.len(), |i: int| headers[i]@)
}

/// An answer to a client.
#[derive(Clone, PartialEq, Eq, Debug)]
pub struct Response {
    pub status: u16,
    pub headers: Vec<Header>,
    pub body: Vec<u8>,
}

/// An answer as a mathematical value.
pub struct ResponseView {
    pub status: u16,
    pub headers: Seq<(Seq<u8>, Seq<u8>)>,
    pub body: Seq<u8>,
}

impl View for Response {
    type V = ResponseView;

    open spec fn view(&self) -> ResponseView {
        ResponseView {
            status: self.status,
            headers: header_views(self.headers@),
            body: self.body@,
        }
    }
}

/// The answer that is a status and nothing else.
pub open spec fn bare(status: u16) -> ResponseView {
    ResponseView { status, headers: Seq::empty(), body: Seq::empty() }
}

/// The header name `Content-Md5`.
pub open spec fn content_md5() -> Seq<u8> {
    ascii("Content-Md5"@)
}

/// The header name `Content-Length`.
pub open spec fn content_length() -> Seq<u8> {
    ascii("Content-Length"@)
}

/// The header name `Content-Type`.
pub open spec fn content_type() -> Seq<u8> {
    ascii("Content-Type"@)
}

/// The header name `Location`.
pub open spec fn location() -> Seq<u8> {
    ascii("Location"@)
}

/// The header name `Key-Balance`.
pub open spec fn key_balance() -> Seq<u8> {
    ascii("Key-Balance"@)
}

/// The header name `Key-Volumes`.
pub open spec fn key_volumes() -> Seq<u8> {
    ascii("Key-Volumes"@)
}

/// The header value `unbalanced`.
pub open spec fn unbalanced() -> Seq<u8> {
    ascii("unbalanced"@)
}

/// The header value `application/json`.
pub open spec fn json_type() -> Seq<u8> {
    ascii("application/json"@)
}

/// The header value `0`.
pub open spec fn zero() -> Seq<u8> {
    ascii("0"@)
}

impl Header {
    /// A header from its name and value.
    pub fn new(name: &[u8], value: &[u8]) -> (h: Header)
        ensures
            h@ == (name@, value@),
    {
        Header { name: to_vec(name), value: to_vec(value) }
    }

    /// The header `Content-Md5` with the given hash.
    pub fn content_md5(hash: &[u8]) -> (h: Header)
        ensures
            h@ == (content_md5(), hash@),
    {
        proof {
            reveal_strlit("Content-Md5");
        }
        let name = literal("Content-Md5");
        Header::new(name, hash)
    }

    /// The header `Content-Length: 0`.
    pub fn no_content() -> (h: Header)
        ensures
            h@ == (content_length(), zero()),
    {
        proof {
            reveal_strlit("Content-Length");
            reveal_strlit("0");
        }
        let name = literal("Content-Length");
        let value = literal("0");
        Header::new(name, value)
    }

    /// The header `Content-Type: application/json`.
    pub fn json() -> (h: Header)
        ensures
            h@ == (content_type(), json_type()),
    {
        proof {
            reveal_strlit("Content-Type");
            reveal_strlit("application/json");
        }
        let name = literal("Content-Type");
        let value = literal("application/json");
        Header::new(name, value)
    }

    /// The header `Location` with the given address.
    pub fn location(to: &[u8]) -> (h: Header)
        ensures
            h@ == (location(), to@),
    {
        proof {
            reveal_strlit("Location");
        }
        let name = literal("Location");
        Header::new(name, to)
    }

    /// The header `Key-Balance: unbalanced`.
    pub fn unbalanced() -> (h: Header)
        ensures
            h@ == (key_balance(), unbalanced()),
    {
        proof {
            reveal_strlit("Key-Balance");
            reveal_strlit("unbalanced");
        }
        let name = literal("Key-Balance");
        let value = literal("unbalanced");
        Header::new(name, value)
    }

    /// The header `Key-Volumes` with the given list.
    pub fn key_volumes(list: &[u8]) -> (h: Header)
        ensures
            h@ == (key_volumes(), list@),
    {
        proof {
            reveal_strlit("Key-Volumes");
        }
        let name = literal("Key-Volumes");
        Header::new(name, list)
    }
}

/// What was made of the body of a request: the body read and understood,
/// or nothing where it did not arrive whole or could not be understood, which
/// is answered with 400.
pub open spec fn body_or_refusal<T>(body: Option<T>) -> Result<T, u16> {
    match body {
        Some(value) => Ok(value),
        None => Err(BAD_REQUEST),
    }
}

/// Hands on the body of a request that was read and understood, and says
/// what answers a request whose body was not.
pub fn received<T>(body: Option<T>) -> (r: Result<T, u16>)
    ensures
        r == body_or_refusal(body),
{
    match body {
        Some(value) => Ok(value),
        None => Err(BAD_REQUEST),
    }
}

impl Response {
    /// The answer that is a status and nothing else.
    pub fn bare(status: u16) -> (r: Response)
        ensures
            r@ == bare(status),
    {
        let r = Response { status, headers: Vec::new(), body: Vec::new() };
        assert(r@.headers =~= Seq::empty());
        r
    }
}

} // verus!
