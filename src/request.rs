//! Update requests: what a client sends, the domain in canonical form, and the
//! address that the record receives.

use vstd::prelude::*;
use crate::text::{strip_trailing_dots, strip_trailing_dots_str, trim, trim_str, before_first, before_first_str, contains, contains_str};

verus! {

/// A decoded update request: the domain to update and, optionally, its new address.
pub struct UpdateRequest {
    pub domain: String,
    pub ip: Option<String>,
}

/// A request body that could not be decoded; `cause` says why.
pub struct ParseError {
    pub cause: String,
}

/// How a request body is encoded.
#[derive(Clone, Copy, Debug, PartialEq, Eq, Structural)]
pub enum BodyFormat {
    Json,
    Form,
}

/// The encoding that a `Content-Type` header declares: JSON where the header
/// mentions `application/json`, form data otherwise, also where it is absent.
pub fn body_format(content_type: Option<&str>) -> (r: BodyFormat)
    ensures
        r == (if content_type matches Some(ct) && contains(ct@, "application/json"@) {
            BodyFormat::Json
        } else {
            BodyFormat::Form
        }),
{
    match content_type {
        Some(ct) => {
            if contains_str(ct, "application/json") {
                BodyFormat::Json
            } else {
                BodyFormat::Form
            }
        },
        None => BodyFormat::Form,
    }
}

/// The canonical form of a domain name: without the dots that end it.
pub fn normalize_domain(domain: &str) -> (r: String)
    ensures
        r@ == strip_trailing_dots(domain@),
        !(r@.len() > 0 && r@.last() == '.'),
{
    proof {
        lemma_stripped_has_no_trailing_dot(domain@);
    }
    strip_trailing_dots_str(domain).to_owned()
}

proof fn lemma_stripped_has_no_trailing_dot(s: Seq<char>)
    ensures
        !(strip_trailing_dots(s).len() > 0 && strip_trailing_dots(s).last() == '.'),
    decreases s.len(),
{
    if s.len() > 0 && s.last() == '.' {
        lemma_stripped_has_no_trailing_dot(s.drop_last());
    }
}

/// Normalizing a domain name twice gives what normalizing it once gives.
pub proof fn lemma_normalize_idempotent(s: Seq<char>)
    ensures
        strip_trailing_dots(strip_trailing_dots(s)) == strip_trailing_dots(s),
{
    lemma_stripped_has_no_trailing_dot(s);
}

/// What the transport and the proxy headers say of where a request came from.
pub struct ClientAddress {
    /// The `X-Forwarded-For` header, if present.
    pub forwarded_for: Option<String>,
    /// The `X-Real-IP` header, if present.
    pub real_ip: Option<String>,
    /// The address of the connection's peer.
    pub peer: String,
}

/// The first entry of an `X-Forwarded-For` value, trimmed.
pub open spec fn first_forwarded(h: Seq<char>) -> Seq<char> {
    trim(before_first(h, ','))
}

/// The address a record receives: the request's own `ip` when it has one; else the
/// first entry of `X-Forwarded-For`, trimmed, when that is not empty; else
/// `X-Real-IP`, trimmed, when that is not empty; else the peer's address.
pub open spec fn chosen_address(explicit: Option<String>, client: ClientAddress) -> Seq<char> {
    match explicit {
        Some(ip) => ip@,
        None => {
            if client.forwarded_for matches Some(f) && first_forwarded(f@).len() > 0 {
                first_forwarded(client.forwarded_for->Some_0@)
            } else if client.real_ip matches Some(x) && trim(x@).len() > 0 {
                trim(client.real_ip->Some_0@)
            } else {
                client.peer@
            }
        },
    }
}

/// The address that an update writes: see `chosen_address`.
pub fn effective_ip(explicit: &Option<String>, client: &ClientAddress) -> (r: String)
    ensures
        r@ == chosen_address(*explicit, *client),
        explicit matches Some(ip) ==> r@ == ip@,
{
    match explicit {
        Some(ip) => {
            return ip.clone();
        },
        None => {},
    }
    match &client.forwarded_for {
        Some(f) => {
            let first = trim_str(before_first_str(f.as_str(), ','));
            if !first.is_empty() {
                return first.to_owned();
            }
        },
        None => {},
    }
    match &client.real_ip {
        Some(x) => {
            let t = trim_str(x.as_str());
            if !t.is_empty() {
                return t.to_owned();
            }
        },
        None => {},
    }
    client.peer.clone()
}

} // verus!
