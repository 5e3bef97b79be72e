//! The two media-type constants the body decoder compares the
//! `Content-Type` header against. The `mime` crate owns them; the
//! wrappers state their exact text.

use vstd::prelude::*;

verus! {

/// The bytes of `application/x-www-form-urlencoded`.
pub open spec fn form_urlencoded_mime() -> Seq<u8> {
    seq![
        97u8,
        112u8,
        112u8,
        108u8,
        105u8,
        99u8,
        97u8,
        116u8,
        105u8,
        111u8,
        110u8,
        47u8,
        120u8,
        45u8,
        119u8,
        119u8,
        119u8,
        45u8,
        102u8,
        111u8,
        114u8,
        109u8,
        45u8,
        117u8,
        114u8,
        108u8,
        101u8,
        110u8,
        99u8,
        111u8,
        100u8,
        101u8,
        100u8,
    ]
}

/// The bytes of `application/json`.
pub open spec fn json_mime() -> Seq<u8> {
    seq![
        97u8,
        112u8,
        112u8,
        108u8,
        105u8,
        99u8,
        97u8,
        116u8,
        105u8,
        111u8,
        110u8,
        47u8,
        106u8,
        115u8,
        111u8,
        110u8,
    ]
}

/// Relies on mime::APPLICATION_WWW_FORM_URLENCODED, whose text is
/// `application/x-www-form-urlencoded`.
#[verifier::external_body]
pub fn form_urlencoded_mime_bytes() -> (r: Vec<u8>)
    ensures
        r@ == form_urlencoded_mime(),
{
    mime::APPLICATION_WWW_FORM_URLENCODED.to_string().into_bytes()
}

/// Relies on mime::APPLICATION_JSON, whose text is `application/json`.
#[verifier::external_body]
pub fn json_mime_bytes() -> (r: Vec<u8>)
    ensures
        r@ == json_mime(),
{
    mime::APPLICATION_JSON.to_string().into_bytes()
}

} // verus!
