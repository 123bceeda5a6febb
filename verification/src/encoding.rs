//! The calls into the `base64` and `serde_json` crates, and what the library
//! relies on about them.

use base64::Engine as _;
use vstd::prelude::*;

verus! {

/// `base64::DecodeError`, carried through as an opaque value.
#[verifier::external_type_specification]
#[verifier::external_body]
pub struct ExDecodeError(base64::DecodeError);

/// `serde_json::Map`, carried through as an opaque value.
#[verifier::external_type_specification]
#[verifier::external_body]
#[verifier::reject_recursive_types(K)]
#[verifier::reject_recursive_types(V)]
pub struct ExJsonMap<K, V>(serde_json::Map<K, V>);

/// `serde_json::Value`, carried through as an opaque value.
#[verifier::external_type_specification]
#[verifier::external_body]
pub struct ExJsonValue(serde_json::Value);

/// The bytes that `URL_SAFE_NO_PAD.decode` gives for `text`, or `None` where
/// it returns an error.
pub uninterp spec fn base64url_decoded(text: Seq<char>) -> Option<Seq<u8>>;

/// The text that `URL_SAFE_NO_PAD.encode` gives for `bytes`.
pub uninterp spec fn base64url_encoded(bytes: Seq<u8>) -> Seq<char>;

/// A character of the URL-safe base64 alphabet (RFC 4648, section 5).
pub open spec fn is_base64url_char(c: char) -> bool {
    ||| 'A' <= c <= 'Z'
    ||| 'a' <= c <= 'z'
    ||| '0' <= c <= '9'
    ||| c == '-'
    ||| c == '_'
}

/// Length of the unpadded base64 text of `n` bytes: four characters for each
/// whole group of three bytes, and two or three for a last group of one or two.
pub open spec fn base64_unpadded_len(n: nat) -> nat {
    ((4 * n + 2) / 3) as nat
}

/// The keys of a JSON object.
pub uninterp spec fn json_object_keys(object: serde_json::Map<String, serde_json::Value>) -> Set<
    Seq<char>,
>;

/// The entries of a JSON object whose value is a JSON string, by key.
pub uninterp spec fn json_object_texts(object: serde_json::Map<String, serde_json::Value>) -> Map<
    Seq<char>,
    Seq<char>,
>;

/// The entries of a JSON object whose value is a JSON number holding a
/// non-negative integer, by key.
pub uninterp spec fn json_object_integers(
    object: serde_json::Map<String, serde_json::Value>,
) -> Map<Seq<char>, u64>;

/// Calls `base64::engine::general_purpose::URL_SAFE_NO_PAD.decode` on the
/// UTF-8 bytes of `text`. Trusted: the result is `Ok` exactly where the name
/// `base64url_decoded` is `Some`, and then holds those bytes. Decoding is
/// canonical: the engine requires no padding and rejects non-zero trailing
/// bits and lone final symbols (`decode_suffix.rs`), so text that decodes is
/// exactly the encoding of what it decodes to.
#[verifier::external_body]
pub(crate) fn decode_base64url(text: &str) -> (res: Result<Vec<u8>, base64::DecodeError>)
    ensures
        res is Ok <==> base64url_decoded(text@) is Some,
        res matches Ok(bytes) ==> base64url_decoded(text@) == Some(bytes@),
        res matches Ok(bytes) ==> base64url_encoded(bytes@) == text@,
{
    base64::engine::general_purpose::URL_SAFE_NO_PAD.decode(text.as_bytes())
}

/// Calls `base64::engine::general_purpose::URL_SAFE_NO_PAD.encode`. Trusted:
/// the result is `base64url_encoded(bytes)`; it has `(4n + 2) / 3` characters
/// for `n` bytes (`encoded_len` without padding), all from the URL-safe
/// alphabet; and decoding it with the same engine gives `bytes` back (the
/// engine's encode/decode round trip). The `requires` keeps the crate's
/// output-length computation from overflowing, where it would panic.
#[verifier::external_body]
pub(crate) fn encode_base64url(bytes: &[u8]) -> (text: String)
    requires
        4 * (bytes@.len() / 3) + 3 <= usize::MAX,
    ensures
        text@ == base64url_encoded(bytes@),
        text@.len() == base64_unpadded_len(bytes@.len()),
        forall|i: int| 0 <= i < text@.len() ==> is_base64url_char(#[trigger] text@[i]),
        base64url_decoded(text@) == Some(bytes@),
{
    base64::engine::general_purpose::URL_SAFE_NO_PAD.encode(bytes)
}

/// `Clone` of `serde_json::Map<String, Value>`. Trusted: the copy has the
/// same entries (it clones the underlying map entry by entry).
pub assume_specification[ <serde_json::Map<String, serde_json::Value> as Clone>::clone ](
    map: &serde_json::Map<String, serde_json::Value>,
) -> (copy: serde_json::Map<String, serde_json::Value>)
    ensures
        json_object_keys(copy) == json_object_keys(*map),
        json_object_texts(copy) == json_object_texts(*map),
        json_object_integers(copy) == json_object_integers(*map),
;

/// Calls `serde_json::Map::new`. Trusted: the new object has no entries.
#[verifier::external_body]
pub(crate) fn empty_json_object() -> (object: serde_json::Map<String, serde_json::Value>)
    ensures
        json_object_keys(object) == Set::<Seq<char>>::empty(),
        json_object_texts(object).dom() == Set::<Seq<char>>::empty(),
        json_object_integers(object).dom() == Set::<Seq<char>>::empty(),
{
    serde_json::Map::new()
}

/// Calls `serde_json::Map::insert` with `Value::String(value)`. Trusted: the
/// entry for `key` now holds the string `value`, replacing what it held.
#[verifier::external_body]
pub(crate) fn json_insert_text(
    object: &mut serde_json::Map<String, serde_json::Value>,
    key: &str,
    value: &str,
)
    ensures
        json_object_keys(*final(object)) == json_object_keys(*old(object)).insert(key@),
        json_object_texts(*final(object)) == json_object_texts(*old(object)).insert(key@, value@),
        json_object_integers(*final(object)) == json_object_integers(*old(object)).remove(key@),
{
    object.insert(key.to_owned(), serde_json::Value::String(value.to_owned()));
}

/// Calls `serde_json::Map::insert` with `Value::from(value)`, a JSON number
/// holding the non-negative integer `value`. Trusted: the entry for `key` now
/// holds that number, replacing what it held.
#[verifier::external_body]
pub(crate) fn json_insert_integer(
    object: &mut serde_json::Map<String, serde_json::Value>,
    key: &str,
    value: u64,
)
    ensures
        json_object_keys(*final(object)) == json_object_keys(*old(object)).insert(key@),
        json_object_texts(*final(object)) == json_object_texts(*old(object)).remove(key@),
        json_object_integers(*final(object)) == json_object_integers(*old(object)).insert(
            key@,
            value,
        ),
{
    object.insert(key.to_owned(), serde_json::Value::from(value));
}

} // verus!
