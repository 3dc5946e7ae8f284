//! The items whose contracts are believed rather than proved: std functions that
//! vstd leaves unspecified, and the calls into `http`, `serde_json` and `chrono`.

use vstd::prelude::*;
use vstd::utf8::{decode_utf8, valid_utf8};

verus! {

/// `String::push` appends one character; std documents exactly that.
pub assume_specification[ std::string::String::push ](s: &mut String, ch: char)
    ensures
        final(s)@ == old(s)@.push(ch),
;

/// A token character of RFC 9110, the bytes that `http`'s header-name table
/// accepts (its `HEADER_CHARS`, upper-case letters included).
pub open spec fn is_token_char(c: char) -> bool {
    let u = c as u32;
    ||| 0x61 <= u <= 0x7A
    ||| 0x41 <= u <= 0x5A
    ||| 0x30 <= u <= 0x39
    ||| u == 0x21 || u == 0x23 || u == 0x24 || u == 0x25 || u == 0x26 || u == 0x27
    ||| u == 0x2A || u == 0x2B || u == 0x2D || u == 0x2E
    ||| u == 0x5E || u == 0x5F || u == 0x60 || u == 0x7C || u == 0x7E
}

/// A text that `http::HeaderName::from_bytes` takes: one to 65535 token characters.
pub open spec fn valid_header_name(s: Seq<char>) -> bool {
    &&& 1 <= s.len() <= 65535
    &&& forall|i: int| 0 <= i < s.len() ==> is_token_char(#[trigger] s[i])
}

/// A character whose UTF-8 bytes `http::HeaderValue::from_str` accepts: a tab,
/// or anything from the space up but DEL (every byte of a non-ASCII character is
/// 0x80 or more).
pub open spec fn is_header_value_char(c: char) -> bool {
    let u = c as u32;
    u == 9 || (u >= 32 && u != 127)
}

/// A text that `http::HeaderValue::from_str` takes.
pub open spec fn valid_header_value(s: Seq<char>) -> bool {
    forall|i: int| 0 <= i < s.len() ==> is_header_value_char(#[trigger] s[i])
}

/// A byte that `http::HeaderValue::to_str` lets through: a tab or visible ASCII.
pub open spec fn is_visible_ascii(b: u8) -> bool {
    (32 <= b < 127) || b == 9
}

/// Whether `http::HeaderName::from_bytes` accepts the bytes of `name`. The
/// contract restates the crate's check: the length is 1 to 65535 and every byte
/// maps to a non-zero entry of its token table.
#[verifier::external_body]
pub(crate) fn header_name_accepted(name: &str) -> (ok: bool)
    ensures
        ok == valid_header_name(name@),
{
    http::HeaderName::from_bytes(name.as_bytes()).is_ok()
}

/// Whether `http::HeaderValue::from_str` accepts `value`. The contract restates
/// the crate's byte check: every byte is a tab, or at least 32 and not 127.
#[verifier::external_body]
pub(crate) fn header_value_accepted(value: &str) -> (ok: bool)
    ensures
        ok == valid_header_value(value@),
{
    http::HeaderValue::from_str(value).is_ok()
}

/// The text of a header value, as `http::HeaderValue::to_str` gives it, for a
/// value that arrives as its bytes (`HeaderValue::from_bytes` turns them back
/// into a value; it refuses only bytes that `to_str` refuses too). The contract
/// restates `to_str`: text exactly when every byte is a tab or visible ASCII, and
/// then the text is those bytes.
#[verifier::external_body]
pub(crate) fn header_value_text(bytes: &[u8]) -> (r: Option<String>)
    ensures
        r is Some <==> forall|i: int| 0 <= i < bytes@.len() ==> is_visible_ascii(#[trigger] bytes@[i]),
        r matches Some(t) ==> t@ == bytes@.map_values(|b: u8| b as char),
{
    match http::HeaderValue::from_bytes(bytes) {
        Ok(v) => match v.to_str() {
            Ok(t) => Some(t.to_string()),
            Err(_) => None,
        },
        Err(_) => None,
    }
}

/// Whether `http::StatusCode::from_u16(code)` gives a code whose `is_success`
/// holds: the crate takes codes 100 to 999 and calls 200 to 299 success.
#[verifier::external_body]
pub(crate) fn status_is_success(code: u16) -> (ok: bool)
    ensures
        ok == (200 <= code < 300),
{
    match http::StatusCode::from_u16(code) {
        Ok(status) => status.is_success(),
        Err(_) => false,
    }
}

/// The current time in milliseconds since the Unix epoch:
/// `chrono::Utc::now().timestamp_millis()`. Only what holds of every reading is
/// stated: chrono reads the system clock, panics when it is before the epoch,
/// and represents no year past 262142, so the reading is non-negative and below
/// nine quadrillion. Two calls may give different readings.
#[verifier::external_body]
pub(crate) fn now_millis() -> (t: i64)
    ensures
        0 <= t < 9_000_000_000_000_000,
{
    chrono::Utc::now().timestamp_millis()
}

/// The compact JSON text of an object whose members are the given
/// string-valued pairs, as `serde_json` writes it.
pub uninterp spec fn json_object_text(fields: Seq<(Seq<char>, Seq<char>)>) -> Seq<char>;

/// Builds a `serde_json::Value::Object` whose members are `fields`, each value a
/// JSON string, and renders it with `to_string`. Nothing is stated of the text
/// beyond that it is a function of the pairs; the escaping and member order are
/// serde_json's.
#[verifier::external_body]
pub(crate) fn json_object_of_strings(fields: &Vec<(String, String)>) -> (text: String)
    ensures
        text@ == json_object_text(fields.deep_view()),
{
    let object = fields.iter().map(|(k, v)| (k.clone(), serde_json::Value::String(v.clone()))).collect::<
        serde_json::Map<String, serde_json::Value>,
    >();
    serde_json::Value::Object(object).to_string()
}

/// The text of `bytes` with every invalid UTF-8 sequence replaced by U+FFFD.
pub uninterp spec fn lossy_utf8(bytes: Seq<u8>) -> Seq<char>;

/// `String::from_utf8_lossy`. std documents that valid UTF-8 comes back as the
/// text it encodes; what replaces invalid sequences is only named.
#[verifier::external_body]
pub(crate) fn utf8_lossy(bytes: &[u8]) -> (text: String)
    ensures
        text@ == lossy_utf8(bytes@),
        valid_utf8(bytes@) ==> text@ == decode_utf8(bytes@),
{
    String::from_utf8_lossy(bytes).into_owned()
}

} // verus!
