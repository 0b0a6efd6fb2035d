//! Credentials: reading the key from the `Authorization` header and checking it
//! against the authorized domains without revealing which check failed.

use vstd::prelude::*;
use vstd::string::StringSliceAdditionalSpecFns;
use vstd::utf8::encode_utf8;
use subtle::ConstantTimeEq;
use crate::text::{starts_with, starts_with_str, trim_str};
use crate::config::{Config, DomainConfig, is_blank};

verus! {

/// Why no key could be read from the `Authorization` header.
#[derive(Clone, Copy, Debug, PartialEq, Eq, Structural)]
pub enum AuthError {
    /// The request has no `Authorization` header.
    MissingHeader,
    /// The header's value is not visible ASCII text.
    InvalidEncoding,
    /// The key is empty, or white space only.
    EmptyKey,
}

pub open spec fn auth_error_text(e: AuthError) -> Seq<char> {
    match e {
        AuthError::MissingHeader => "Missing Authorization header"@,
        AuthError::InvalidEncoding => "Invalid Authorization header encoding"@,
        AuthError::EmptyKey => "Authorization header cannot be empty"@,
    }
}

impl AuthError {
    /// The message reported to the client.
    pub fn message(&self) -> (r: String)
        ensures
            r@ == auth_error_text(*self),
    {
        match self {
            AuthError::MissingHeader => "Missing Authorization header".to_owned(),
            AuthError::InvalidEncoding => "Invalid Authorization header encoding".to_owned(),
            AuthError::EmptyKey => "Authorization header cannot be empty".to_owned(),
        }
    }
}

/// The key that a header value presents: what follows `Bearer `, or the whole value.
pub open spec fn presented_key(h: Seq<char>) -> Seq<char> {
    if starts_with(h, "Bearer "@) {
        h.skip(7)
    } else {
        h
    }
}

/// The key presented in the `Authorization` header's value, with or without the
/// `Bearer ` prefix; an absent header, or a key that is blank, is refused.
pub fn extract_auth_key(header: Option<&str>) -> (r: Result<String, AuthError>)
    ensures
        header is None ==> r == Err::<String, AuthError>(AuthError::MissingHeader),
        header matches Some(h) ==> {
            &&& is_blank(presented_key(h@)) ==> r == Err::<String, AuthError>(AuthError::EmptyKey)
            &&& !is_blank(presented_key(h@)) ==> (r matches Ok(k) && k@ == presented_key(h@))
        },
{
    match header {
        None => Err(AuthError::MissingHeader),
        Some(h) => {
            proof {
                reveal_strlit("Bearer ");
            }
            let key: &str = if starts_with_str(h, "Bearer ") {
                let n = h.unicode_len();
                h.substring_char(7, n)
            } else {
                h
            };
            if trim_str(key).is_empty() {
                Err(AuthError::EmptyKey)
            } else {
                Ok(key.to_owned())
            }
        },
    }
}

/// Relies on subtle's `ConstantTimeEq` for byte slices (with `bool: From<Choice>`):
/// true exactly when both slices have the same length and the same bytes, and for
/// slices of one length the time taken does not depend on the bytes.
#[verifier::external_body]
fn keys_equal(stored: &str, presented: &str) -> (r: bool)
    ensures
        r == (stored.spec_bytes() == presented.spec_bytes()),
{
    bool::from(stored.as_bytes().ct_eq(presented.as_bytes()))
}

/// Whether entry `i` is the first entry of `ds` named `name`.
pub open spec fn first_named(ds: Seq<DomainConfig>, name: Seq<char>, i: int) -> bool {
    &&& 0 <= i < ds.len()
    &&& ds[i].name@ == name
    &&& forall|j: int| 0 <= j < i ==> #[trigger] ds[j].name@ != name
}

/// Whether `key` is, byte for byte, the key of the entry named `name`.
pub open spec fn is_authorized(ds: Seq<DomainConfig>, name: Seq<char>, key: Seq<char>) -> bool {
    exists|i: int| #[trigger] first_named(ds, name, i) && encode_utf8(ds[i].key@) == encode_utf8(key)
}

/// Whether `key` may update `domain`. An unknown domain and a wrong key give the
/// same answer; the key comparison takes a time that does not depend on where the
/// keys first differ.
pub fn authorize(config: &Config, domain: &str, key: &str) -> (r: bool)
    ensures
        r == is_authorized(config.domains@, domain@, key@),
{
    match config.find_domain(domain) {
        None => false,
        Some(entry) => {
            let ghost i = choose|i: int|
                0 <= i < config.domains@.len() && config.domains@[i] == *entry && entry.name@ == domain@
                    && forall|j: int| 0 <= j < i ==> #[trigger] config.domains@[j].name@ != domain@;
            assert(first_named(config.domains@, domain@, i));
            let r = keys_equal(entry.key.as_str(), key);
            proof {
                if is_authorized(config.domains@, domain@, key@) {
                    let i2 = choose|i2: int| #[trigger] first_named(config.domains@, domain@, i2)
                        && encode_utf8(config.domains@[i2].key@) == key.spec_bytes();
                    if i2 < i {
                        assert(config.domains@[i2].name@ != domain@);
                    } else if i < i2 {
                        assert(config.domains@[i].name@ != domain@);
                    }
                }
            }
            r
        },
    }
}

} // verus!
