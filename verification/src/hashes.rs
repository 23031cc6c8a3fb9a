//! Content-addressed identity of events, computed through ruma.
//!
//! The reference hash is what an event id names: ruma redacts the event
//! per the room-version rules, drops `signatures` and `unsigned`, and
//! digests the canonical serialization with SHA-256, in unpadded base64.
//! Nothing here restates the digest; the results and the conditions under
//! which the calls succeed are only given names that contracts can share.

use vstd::prelude::*;

verus! {

/// The reference hash ruma derives from the canonical bytes of an event:
/// a function of those bytes alone.
pub uninterp spec fn reference_hash_of(canonical: Seq<u8>) -> Seq<u8>;

/// Whether ruma accepts the canonical bytes for reference hashing: they
/// parse as a JSON object whose redacted serialization fits the size cap.
/// A function of the bytes alone.
pub uninterp spec fn reference_hash_ok(canonical: Seq<u8>) -> bool;

/// The content hash ruma derives from the canonical bytes of an event.
pub uninterp spec fn content_hash_of(canonical: Seq<u8>) -> Seq<u8>;

/// Whether ruma accepts the canonical bytes for content hashing.
pub uninterp spec fn content_hash_ok(canonical: Seq<u8>) -> bool;

/// Relies on `ruma_signatures::reference_hash` under the room-version-6
/// rules, on the object parsed back from the canonical bytes. Its source
/// shows the call succeeds or fails as a function of the bytes alone, and
/// that the result is the unpadded base64 (url-safe alphabet) of a
/// 32-byte digest: 43 bytes, all printable ASCII.
#[verifier::external_body]
pub(crate) fn reference_hash(canonical: &Vec<u8>) -> (r: Option<Vec<u8>>)
    ensures
        r is Some <==> reference_hash_ok(canonical@),
        r matches Some(h) ==> h@ == reference_hash_of(canonical@) && h@.len() == 43 && (forall|
            i: int,
        |
            0 <= i < h@.len() ==> 43 <= #[trigger] h@[i] <= 122),
{
    let obj: ruma_common::CanonicalJsonObject = match serde_json::from_slice(canonical.as_slice())
    {
        Ok(o) => o,
        Err(_) => {
            return None;
        },
    };
    let rules = ruma_common::room_version_rules::RoomVersionRules::V6;
    match ruma_signatures::reference_hash(&obj, &rules) {
        Ok(h) => Some(h.into_bytes()),
        Err(_) => None,
    }
}

/// Relies on `ruma_signatures::content_hash`, on the object parsed back
/// from the canonical bytes. Its source shows the call succeeds or fails
/// as a function of the bytes alone, and that the result is the unpadded
/// base64 (standard alphabet) of a 32-byte digest: 43 bytes, all
/// printable ASCII.
#[verifier::external_body]
pub(crate) fn content_hash(canonical: &Vec<u8>) -> (r: Option<Vec<u8>>)
    ensures
        r is Some <==> content_hash_ok(canonical@),
        r matches Some(h) ==> h@ == content_hash_of(canonical@) && h@.len() == 43 && (forall|
            i: int,
        |
            0 <= i < h@.len() ==> 43 <= #[trigger] h@[i] <= 122),
{
    let obj: ruma_common::CanonicalJsonObject = match serde_json::from_slice(canonical.as_slice())
    {
        Ok(o) => o,
        Err(_) => {
            return None;
        },
    };
    match ruma_signatures::content_hash(&obj) {
        Ok(h) => Some(h.encode().into_bytes()),
        Err(_) => None,
    }
}

/// The unpadded-base64 ed25519 signature of a message under the key
/// `(version, DER document)`: RFC 8032 signing is deterministic, so the
/// result is a function of the message and the key alone.
pub uninterp spec fn ed25519_signature_of(
    message: Seq<u8>,
    version: Seq<u8>,
    key_der: Seq<u8>,
) -> Seq<u8>;

/// Whether the key material is accepted: the version is UTF-8 and the DER
/// document parses as an ed25519 key pair. A function of the key alone.
pub uninterp spec fn ed25519_key_ok(version: Seq<u8>, key_der: Seq<u8>) -> bool;

/// Relies on `ruma_signatures::Ed25519KeyPair::from_der` and
/// `KeyPair::sign`: the signature of the message bytes under the key, in
/// unpadded base64 (printable ASCII).
#[verifier::external_body]
pub(crate) fn ed25519_sign(message: &Vec<u8>, version: &Vec<u8>, key_der: &Vec<u8>) -> (r: Option<
    Vec<u8>,
>)
    ensures
        r is Some <==> ed25519_key_ok(version@, key_der@),
        r matches Some(s) ==> s@ == ed25519_signature_of(message@, version@, key_der@) && (forall|
            i: int,
        |
            0 <= i < s@.len() ==> 43 <= #[trigger] s@[i] <= 122),
{
    let version = match String::from_utf8(version.clone()) {
        Ok(v) => v,
        Err(_) => {
            return None;
        },
    };
    let pair = match ruma_signatures::Ed25519KeyPair::from_der(key_der.as_slice(), version) {
        Ok(p) => p,
        Err(_) => {
            return None;
        },
    };
    let sig = ruma_signatures::KeyPair::sign(&pair, message.as_slice());
    Some(sig.base64().into_bytes())
}

} // verus!
