use vstd::prelude::*;

verus! {

#[verifier::external_type_specification]
#[verifier::external_body]
pub struct ExJsonValue(json::JsonValue);

#[verifier::external_type_specification]
#[verifier::external_body]
pub struct ExJsonError(json::Error);

/// The text that a byte sequence encodes as UTF-8, if it is valid UTF-8.
pub uninterp spec fn utf8_decoded(bytes: Seq<u8>) -> Option<Seq<char>>;

/// The text of a byte sequence with each invalid UTF-8 unit replaced.
pub uninterp spec fn utf8_lossy(bytes: Seq<u8>) -> Seq<char>;

/// Whether a text is a JSON document.
pub uninterp spec fn json_parses(text: Seq<char>) -> bool;

/// Relies on `String::from_utf8`: the decoded text exactly when the bytes are
/// valid UTF-8; no bytes decode to the empty text, and any bytes to some text.
#[verifier::external_body]
fn decode_utf8(bytes: &[u8]) -> (r: Option<String>)
    ensures
        match r {
            Some(s) => utf8_decoded(bytes@) == Some(s@),
            None => utf8_decoded(bytes@) is None,
        },
        bytes@.len() == 0 ==> (r is Some && r->0@.len() == 0),
        bytes@.len() > 0 && r is Some ==> r->0@.len() > 0,
{
    String::from_utf8(bytes.to_vec()).ok()
}

/// Relies on `String::from_utf8_lossy`: valid UTF-8 decodes as it is, and
/// every byte ends up in a decoded character or a replacement character.
#[verifier::external_body]
fn decode_utf8_lossy(bytes: &[u8]) -> (r: String)
    ensures
        r@ == utf8_lossy(bytes@),
        utf8_decoded(bytes@) is Some ==> r@ == utf8_decoded(bytes@)->0,
        bytes@.len() > 0 ==> r@.len() > 0,
{
    String::from_utf8_lossy(bytes).into_owned()
}

/// Relies on `json::parse`: succeeds exactly on JSON documents.
#[verifier::external_body]
fn parse_json(text: &str) -> (r: Result<json::JsonValue, json::Error>)
    ensures
        r is Ok == json_parses(text@),
{
    json::parse(text)
}

/// Relies on `json::stringify_pretty`: the value printed with `spaces` spaces
/// per level, keys in their order; every value prints as at least one character.
/// The indentation of a line is the nesting depth times `spaces`, in `u16`:
/// values here come from `json::parse`, which nests at most 512 deep, so
/// `spaces` up to 127 cannot overflow it.
#[verifier::external_body]
fn stringify_pretty(value: json::JsonValue, spaces: u16) -> (r: String)
    requires
        spaces <= 127,
    ensures
        r@.len() > 0,
{
    json::stringify_pretty(value, spaces)
}

/// Spaces per indentation level of pretty-printed JSON.
pub const JSON_INDENT: u16 = 2;

/// What an empty payload is shown as.
pub const EMPTY_PAYLOAD: &'static str = "(empty payload)";

/// A payload as text: invalid UTF-8 units become replacement characters.
pub fn payload_as_utf8(payload: &[u8]) -> (r: String)
    ensures
        r@ == utf8_lossy(payload@),
        utf8_decoded(payload@) is Some ==> r@ == utf8_decoded(payload@)->0,
        payload@.len() > 0 ==> r@.len() > 0,
{
    decode_utf8_lossy(payload)
}

/// A payload read as a JSON document, when it is UTF-8 text that parses as JSON.
pub fn payload_as_json(payload: &[u8]) -> (r: Option<json::JsonValue>)
    ensures
        r is Some <==> (utf8_decoded(payload@) is Some && json_parses(
            utf8_decoded(payload@)->0,
        )),
{
    match decode_utf8(payload) {
        Some(text) => match parse_json(text.as_str()) {
            Ok(value) => Some(value),
            Err(_) => None,
        },
        None => None,
    }
}

/// The display text of a payload, never empty: a placeholder for an empty
/// payload, pretty-printed JSON when it is a JSON document, else the UTF-8
/// text itself, else the text with every invalid unit replaced.
pub fn format_payload(payload: &[u8]) -> (r: String)
    ensures
        r@.len() > 0,
        payload@.len() == 0 ==> r@ == EMPTY_PAYLOAD@,
        payload@.len() > 0 ==> match utf8_decoded(payload@) {
            Some(text) => if json_parses(text) {
                r@.len() > 0
            } else {
                r@ == text
            },
            None => r@ == utf8_lossy(payload@) && r@.len() > 0,
        },
{
    if payload.len() == 0 {
        proof {
            reveal_strlit("(empty payload)");
        }
        return EMPTY_PAYLOAD.to_string();
    }
    match decode_utf8(payload) {
        Some(text) => match parse_json(text.as_str()) {
            Ok(value) => stringify_pretty(value, JSON_INDENT),
            Err(_) => text,
        },
        None => {
            let r = decode_utf8_lossy(payload);
            r
        },
    }
}

} // verus!
