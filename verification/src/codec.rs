//! The encodings a token goes through: URL-safe base64 (the `base64` crate),
//! UTF-8 (std) and JSON (the JavaScript engine, through `js_sys`).
use vstd::prelude::*;

use base64::Engine;
use wasm_bindgen::JsValue;

verus! {

/// The symbols of the URL-safe base64 alphabet: `A`-`Z`, `a`-`z`, `0`-`9`,
/// `-` and `_`.
pub open spec fn is_url_safe_symbol(b: u8) -> bool {
    ||| (65 <= b && b <= 90)
    ||| (97 <= b && b <= 122)
    ||| (48 <= b && b <= 57)
    ||| b == 45
    ||| b == 95
}

/// What the `base64` crate's `URL_SAFE_NO_PAD` engine decodes `input` to, or
/// `None` where it reports an error.
pub uninterp spec fn url_safe_no_pad_decoded(input: Seq<u8>) -> Option<Seq<u8>>;

/// Decodes `input` with `base64::engine::general_purpose::URL_SAFE_NO_PAD`
/// (`Engine::decode`). The decoded bytes are named by
/// `url_safe_no_pad_decoded`; beyond that the contract claims only that a
/// successful decoding saw nothing but URL-safe symbols, since that engine
/// refuses any other byte, `=` padding included.
#[verifier::external_body]
pub(crate) fn decode_url_safe_no_pad(input: &[u8]) -> (out: Option<Vec<u8>>)
    ensures
        match out {
            Some(bytes) => url_safe_no_pad_decoded(input@) == Some(bytes@),
            None => url_safe_no_pad_decoded(input@) is None,
        },
        out is Some ==> forall|i: int| 0 <= i < input@.len() ==> is_url_safe_symbol(input@[i]),
{
    base64::engine::general_purpose::URL_SAFE_NO_PAD.decode(input).ok()
}

/// Reads `bytes` as UTF-8 (std's `String::from_utf8`): it succeeds exactly
/// when the bytes are well-formed UTF-8, and then holds the characters they
/// encode.
#[verifier::external_body]
pub(crate) fn utf8_string(bytes: Vec<u8>) -> (out: Option<String>)
    ensures
        out is Some <==> vstd::utf8::valid_utf8(bytes@),
        out matches Some(s) ==> s@ == vstd::utf8::decode_utf8(bytes@),
{
    String::from_utf8(bytes).ok()
}

/// What the JavaScript engine makes of `text` when it parses it with
/// `JSON.parse` and renders the value again with
/// `JSON.stringify(value, null, indent)`: `None` where either throws,
/// `Some(None)` where the rendering is no Rust string, and
/// `Some(Some(pretty))` otherwise. Both steps are functions of their
/// arguments alone (ECMA-262).
pub uninterp spec fn json_pretty_printed(text: Seq<char>, indent: u32) -> Option<Option<Seq<char>>>;

/// Parses `text` with `js_sys::JSON::parse` and renders the parsed value
/// with `js_sys::JSON::stringify_with_replacer_and_space` (no replacer,
/// `indent` spaces), reading the rendering back with `JsValue::as_string`.
/// The outcome is named by `json_pretty_printed`; nothing more is claimed
/// of it. The call can only be served by a JavaScript host: on other
/// targets wasm-bindgen's imported functions panic.
#[verifier::external_body]
pub(crate) fn js_json_pretty(text: &str, indent: u32) -> (rendered: Option<Option<String>>)
    ensures
        match rendered {
            None => json_pretty_printed(text@, indent) is None,
            Some(None) => json_pretty_printed(text@, indent) == Some(None::<Seq<char>>),
            Some(Some(pretty)) => json_pretty_printed(text@, indent) == Some(Some(pretty@)),
        },
{
    let value = match js_sys::JSON::parse(text) {
        Ok(value) => value,
        Err(_) => return None,
    };
    match js_sys::JSON::stringify_with_replacer_and_space(&value, &JsValue::NULL, &JsValue::from(indent)) {
        Ok(rendered) => Some(rendered.as_string()),
        Err(_) => None,
    }
}

} // verus!
