//! Decoding and highlighting JSON Web Tokens.
//!
//! A token is three base64url parts joined by dots: header, payload and
//! signature. The header and payload are decoded to text, checked as JSON
//! and pretty-printed; the signature is shown but never examined.
use vstd::prelude::*;

use crate::codec::{
    decode_url_safe_no_pad, is_url_safe_symbol, js_json_pretty, json_pretty_printed,
    url_safe_no_pad_decoded,
    utf8_string,
};
use crate::text::{
    chars_of, escaped_char, html_escaped, lemma_escape_injective, lemma_escape_no_shorter,
    lemma_escaped_has_no_angle_brackets, lemma_split_on, lemma_trimmed_idempotent, occurrences,
    push_escaped, split_chars, split_on, string_of, trim_chars, trimmed, views_of,
};

verus! {

/// How many dot-separated parts a token has.
pub const JWT_PART_COUNT: usize = 3usize;

/// The character between the parts of a token.
pub const JWT_DELIMITER: char = '.';

/// The indentation of pretty-printed JSON.
pub const JSON_INDENT_SPACES: u32 = 2u32;

/// CSS class of the highlighted header.
pub const CSS_HEADER: &'static str = "jwt-part-header";

/// CSS class of the highlighted payload.
pub const CSS_PAYLOAD: &'static str = "jwt-part-payload";

/// CSS class of the highlighted signature.
pub const CSS_SIGNATURE: &'static str = "jwt-part-signature";

/// CSS class of the highlighted dots.
pub const CSS_DELIMITER: &'static str = "jwt-part-dot";

/// The decoded parts of a token.
#[derive(Debug, Clone, Copy, PartialEq, Eq, Structural)]
pub enum JwtPart {
    Header,
    Payload,
}

/// Why a token could not be decoded.
#[derive(Debug, Clone, Copy, PartialEq, Eq, Structural)]
pub enum DecodeError {
    /// The token does not have exactly three dot-separated parts.
    InvalidStructure,
    /// A part is not valid unpadded base64url.
    InvalidBase64(JwtPart),
    /// A part does not decode to UTF-8 text.
    InvalidUtf8(JwtPart),
    /// A part's text is not JSON.
    InvalidJson(JwtPart),
}

impl DecodeError {
    /// The message shown to the user for this error.
    pub open spec fn message_text(self) -> Seq<char> {
        match self {
            DecodeError::InvalidStructure => "JWT must have exactly 3 dot-separated parts"@,
            DecodeError::InvalidBase64(JwtPart::Header) => "Header contains invalid base64url characters"@,
            DecodeError::InvalidBase64(JwtPart::Payload) => "Payload contains invalid base64url characters"@,
            DecodeError::InvalidUtf8(JwtPart::Header) => "Header is not valid UTF-8"@,
            DecodeError::InvalidUtf8(JwtPart::Payload) => "Payload is not valid UTF-8"@,
            DecodeError::InvalidJson(JwtPart::Header) => "Header is not valid JSON"@,
            DecodeError::InvalidJson(JwtPart::Payload) => "Payload is not valid JSON"@,
        }
    }

    /// The message shown to the user for this error.
    pub fn message(&self) -> (m: &'static str)
        ensures
            m@ == self.message_text(),
    {
        match self {
            DecodeError::InvalidStructure => "JWT must have exactly 3 dot-separated parts",
            DecodeError::InvalidBase64(JwtPart::Header) => "Header contains invalid base64url characters",
            DecodeError::InvalidBase64(JwtPart::Payload) => "Payload contains invalid base64url characters",
            DecodeError::InvalidUtf8(JwtPart::Header) => "Header is not valid UTF-8",
            DecodeError::InvalidUtf8(JwtPart::Payload) => "Payload is not valid UTF-8",
            DecodeError::InvalidJson(JwtPart::Header) => "Header is not valid JSON",
            DecodeError::InvalidJson(JwtPart::Payload) => "Payload is not valid JSON",
        }
    }
}

/// The pretty-printed header and payload of a token.
#[derive(Debug)]
pub struct DecodedJwt {
    pub header: String,
    pub payload: String,
}

impl View for DecodedJwt {
    type V = (Seq<char>, Seq<char>);

    open spec fn view(&self) -> (Seq<char>, Seq<char>) {
        (self.header@, self.payload@)
    }
}

/// A decoding outcome, each text taken by its characters.
pub open spec fn text_outcome(r: Result<String, DecodeError>) -> Result<Seq<char>, DecodeError> {
    match r {
        Ok(s) => Ok(s@),
        Err(e) => Err(e),
    }
}

/// A token decoding outcome, the decoded parts taken by their characters.
pub open spec fn jwt_outcome(r: Result<DecodedJwt, DecodeError>) -> Result<
    (Seq<char>, Seq<char>),
    DecodeError,
> {
    match r {
        Ok(d) => Ok(d@),
        Err(e) => Err(e),
    }
}

/// The text an encoded part decodes to: its characters' UTF-8 bytes read as
/// base64url, then as UTF-8.
pub open spec fn part_text(encoded: Seq<char>, part: JwtPart) -> Result<Seq<char>, DecodeError> {
    match url_safe_no_pad_decoded(vstd::utf8::encode_utf8(encoded)) {
        None => Err(DecodeError::InvalidBase64(part)),
        Some(bytes) => if vstd::utf8::valid_utf8(bytes) {
            Ok(vstd::utf8::decode_utf8(bytes))
        } else {
            Err(DecodeError::InvalidUtf8(part))
        },
    }
}

/// What a part comes to once the JavaScript engine has handled its `text`:
/// `rendering` is `None` where parsing or rendering threw, `Some(None)` where
/// the rendering was no Rust string, and `Some(Some(pretty))` otherwise.
pub open spec fn settled(part: JwtPart, text: Seq<char>, rendering: Option<Option<Seq<char>>>) -> Result<
    Seq<char>,
    DecodeError,
> {
    match rendering {
        None => Err(DecodeError::InvalidJson(part)),
        Some(None) => Ok(text),
        Some(Some(pretty)) => Ok(pretty),
    }
}

/// The outcome of decoding one part: the base64 or UTF-8 error where its
/// text cannot be had, else what the JavaScript engine's parsing and
/// two-space rendering of that text comes to.
pub open spec fn part_result(encoded: Seq<char>, part: JwtPart) -> Result<Seq<char>, DecodeError> {
    match part_text(encoded, part) {
        Err(e) => Err(e),
        Ok(text) => settled(part, text, json_pretty_printed(text, JSON_INDENT_SPACES)),
    }
}

/// The dot-separated parts of a token, after trimming surrounding whitespace.
pub open spec fn token_parts(token: Seq<char>) -> Seq<Seq<char>> {
    split_on(trimmed(token), '.')
}

/// The outcome of decoding a token: a structure error unless there are
/// exactly three parts; else the header's error if it has one, then the
/// payload's; else the two decoded parts. The third part is never read.
pub open spec fn jwt_result(token: Seq<char>) -> Result<(Seq<char>, Seq<char>), DecodeError> {
    let parts = token_parts(token);
    if parts.len() != 3 {
        Err(DecodeError::InvalidStructure)
    } else {
        match part_result(parts[0], JwtPart::Header) {
            Err(e) => Err(e),
            Ok(header) => match part_result(parts[1], JwtPart::Payload) {
                Err(e) => Err(e),
                Ok(payload) => Ok((header, payload)),
            },
        }
    }
}

/// Turns the JavaScript engine's handling of a part's `text` into the part's
/// outcome: a JSON error where the engine threw, else the rendering, or the
/// text itself where the rendering was no Rust string.
pub fn settle_json(part: JwtPart, text: String, rendering: Option<Option<String>>) -> (r: Result<
    String,
    DecodeError,
>)
    ensures
        text_outcome(r) == settled(
            part,
            text@,
            match rendering {
                None => None,
                Some(None) => Some(None),
                Some(Some(p)) => Some(Some(p@)),
            },
        ),
{
    match rendering {
        None => Err(DecodeError::InvalidJson(part)),
        Some(None) => Ok(text),
        Some(Some(pretty)) => Ok(pretty),
    }
}

/// Decodes one base64url part to its JSON text, pretty-printed by the
/// JavaScript engine.
pub fn decode_part(encoded: &str, part: JwtPart) -> (r: Result<String, DecodeError>)
    ensures
        text_outcome(r) == part_result(encoded@, part),
        (exists|i: int| 0 <= i < encoded@.len() && !is_url_safe_char(#[trigger] encoded@[i])) ==> r
            == Err::<String, DecodeError>(DecodeError::InvalidBase64(part)),
{
    let bytes = match decode_url_safe_no_pad(encoded.as_bytes()) {
        Some(bytes) => {
            proof {
                if exists|i: int| 0 <= i < encoded@.len() && !is_url_safe_char(#[trigger] encoded@[i]) {
                    let i = choose|i: int| 0 <= i < encoded@.len() && !is_url_safe_char(#[trigger] encoded@[i]);
                    lemma_unsafe_char_gives_unsafe_byte(encoded@, i);
                }
            }
            bytes
        },
        None => {
            return Err(DecodeError::InvalidBase64(part));
        },
    };
    let json_str = match utf8_string(bytes) {
        Some(text) => text,
        None => {
            return Err(DecodeError::InvalidUtf8(part));
        },
    };
    let rendering = js_json_pretty(json_str.as_str(), JSON_INDENT_SPACES);
    settle_json(part, json_str, rendering)
}

/// Splits a token, with surrounding whitespace trimmed, at its dots.
pub fn token_pieces(token: &str) -> (pieces: Vec<Vec<char>>)
    ensures
        views_of(pieces@) == token_parts(token@),
{
    let chars = chars_of(token);
    let trimmed_chars = trim_chars(&chars);
    split_chars(&trimmed_chars, JWT_DELIMITER)
}

/// Decodes a token's header and payload. Surrounding whitespace is ignored,
/// the token must have exactly three dot-separated parts, the header is
/// decoded before the payload, and the signature is not examined.
pub fn decode_jwt(token: &str) -> (r: Result<DecodedJwt, DecodeError>)
    ensures
        jwt_outcome(r) == jwt_result(token@),
        token_parts(token@).len() == 3 && (exists|i: int|
            0 <= i < token_parts(token@)[0].len() && !is_url_safe_char(
                #[trigger] token_parts(token@)[0][i],
            )) ==> r matches Err(DecodeError::InvalidBase64(JwtPart::Header)),
        token_parts(token@).len() == 3 && part_result(token_parts(token@)[0], JwtPart::Header) is Ok
            && (exists|i: int|
            0 <= i < token_parts(token@)[1].len() && !is_url_safe_char(
                #[trigger] token_parts(token@)[1][i],
            )) ==> r matches Err(DecodeError::InvalidBase64(JwtPart::Payload)),
{
    let pieces = token_pieces(token);
    if pieces.len() != JWT_PART_COUNT {
        return Err(DecodeError::InvalidStructure);
    }
    proof {
        assert(views_of(pieces@)[0] == pieces@[0]@);
        assert(views_of(pieces@)[1] == pieces@[1]@);
    }
    let header_text = string_of(&pieces[0]);
    let header = match decode_part(header_text.as_str(), JwtPart::Header) {
        Ok(h) => h,
        Err(e) => {
            return Err(e);
        },
    };
    let payload_text = string_of(&pieces[1]);
    let payload = match decode_part(payload_text.as_str(), JwtPart::Payload) {
        Ok(p) => p,
        Err(e) => {
            return Err(e);
        },
    };
    Ok(DecodedJwt { header, payload })
}

// ---------------------------------------------------------------------------
// Laws of decoding
// ---------------------------------------------------------------------------

/// The characters of the URL-safe base64 alphabet.
pub open spec fn is_url_safe_char(c: char) -> bool {
    ||| ('A' <= c && c <= 'Z')
    ||| ('a' <= c && c <= 'z')
    ||| ('0' <= c && c <= '9')
    ||| c == '-'
    ||| c == '_'
}

/// The first UTF-8 byte of a character outside the URL-safe alphabet is no
/// URL-safe symbol either.
proof fn lemma_first_byte_not_url_safe(c: char)
    requires
        !is_url_safe_char(c),
    ensures
        !is_url_safe_symbol(vstd::utf8::encode_scalar(c as u32)[0]),
{
    let u = c as u32;
    vstd::utf8::char_is_scalar(c);
    if u <= 0x7f {
        assert((u & 0x7f) as u8 == u as u8 && u as u8 == u) by (bit_vector)
            requires
                u <= 0x7f,
        ;
    } else if u <= 0x7ff {
        let x = ((u >> 6) & 0x1F) as u8;
        assert(0xC0u8 | x >= 0xC0u8) by (bit_vector);
    } else if u <= 0xffff {
        let x = ((u >> 12) & 0x0F) as u8;
        assert(0xE0u8 | x >= 0xE0u8) by (bit_vector);
    } else {
        let x = ((u >> 18) & 0x7) as u8;
        assert(0xF0u8 | x >= 0xF0u8) by (bit_vector);
    }
}

/// Each character's first UTF-8 byte occurs in the encoding of the text.
proof fn lemma_first_byte_in_encoding(s: Seq<char>, i: int)
    requires
        0 <= i < s.len(),
    ensures
        exists|j: int|
            0 <= j < vstd::utf8::encode_utf8(s).len() && #[trigger] vstd::utf8::encode_utf8(s)[j]
                == vstd::utf8::encode_scalar(s[i] as u32)[0],
    decreases s.len(),
{
    let head = vstd::utf8::encode_scalar(s[0] as u32);
    let rest = vstd::utf8::encode_utf8(s.drop_first());
    assert(vstd::utf8::encode_utf8(s) == head + rest);
    assert(head.len() > 0);
    if i == 0 {
        assert(vstd::utf8::encode_utf8(s)[0] == head[0]);
    } else {
        lemma_first_byte_in_encoding(s.drop_first(), i - 1);
        let j = choose|j: int| 0 <= j < rest.len() && #[trigger] rest[j]
            == vstd::utf8::encode_scalar(s.drop_first()[i - 1] as u32)[0];
        assert(vstd::utf8::encode_utf8(s)[head.len() + j] == rest[j]);
    }
}

/// Text holding a character outside the URL-safe alphabet has a UTF-8 byte
/// outside it.
proof fn lemma_unsafe_char_gives_unsafe_byte(s: Seq<char>, i: int)
    requires
        0 <= i < s.len(),
        !is_url_safe_char(s[i]),
    ensures
        exists|j: int|
            0 <= j < vstd::utf8::encode_utf8(s).len() && !is_url_safe_symbol(
                #[trigger] vstd::utf8::encode_utf8(s)[j],
            ),
{
    lemma_first_byte_not_url_safe(s[i]);
    lemma_first_byte_in_encoding(s, i);
}

/// A token is refused for its structure exactly when, once trimmed, it does
/// not hold exactly two dots.
pub proof fn lemma_structure_error(token: Seq<char>)
    ensures
        (jwt_result(token) == Err::<(Seq<char>, Seq<char>), DecodeError>(
            DecodeError::InvalidStructure,
        )) <==> occurrences(trimmed(token), '.') != 2,
{
    lemma_split_on(trimmed(token), '.');
}

/// The signature is never examined: tokens whose header and payload agree
/// decode alike.
pub proof fn lemma_signature_ignored(t1: Seq<char>, t2: Seq<char>)
    requires
        token_parts(t1).len() == 3,
        token_parts(t2).len() == 3,
        token_parts(t1)[0] == token_parts(t2)[0],
        token_parts(t1)[1] == token_parts(t2)[1],
    ensures
        jwt_result(t1) == jwt_result(t2),
{
}

/// Whitespace around a token does not matter: a token and its trimmed form
/// decode alike.
pub proof fn lemma_surrounding_whitespace_ignored(token: Seq<char>)
    ensures
        jwt_result(token) == jwt_result(trimmed(token)),
{
    lemma_trimmed_idempotent(token);
}

/// The part an error arose in, if any.
pub open spec fn error_part(e: DecodeError) -> Option<JwtPart> {
    match e {
        DecodeError::InvalidStructure => None,
        DecodeError::InvalidBase64(p) => Some(p),
        DecodeError::InvalidUtf8(p) => Some(p),
        DecodeError::InvalidJson(p) => Some(p),
    }
}

/// Every error of a part names that part, and never the token's structure.
pub proof fn lemma_part_errors_name_their_part(encoded: Seq<char>, part: JwtPart)
    ensures
        part_result(encoded, part) matches Err(e) ==> error_part(e) == Some(part),
{
}

/// Decoding a three-part token puts each part where it belongs: a success
/// holds the first part's decoding as the header and the second part's as
/// the payload, both parts decoding gives that success, and a failure is the
/// header's error if it has one, else the payload's.
pub proof fn lemma_decoded_parts_in_place(token: Seq<char>)
    requires
        token_parts(token).len() == 3,
    ensures
        jwt_result(token) matches Ok((h, p)) ==> part_result(token_parts(token)[0], JwtPart::Header)
            == Ok::<Seq<char>, DecodeError>(h) && part_result(
            token_parts(token)[1],
            JwtPart::Payload,
        ) == Ok::<Seq<char>, DecodeError>(p),
        part_result(token_parts(token)[0], JwtPart::Header) matches Ok(h) ==> (part_result(
            token_parts(token)[1],
            JwtPart::Payload,
        ) matches Ok(p) ==> jwt_result(token) == Ok::<(Seq<char>, Seq<char>), DecodeError>((h, p))),
        jwt_result(token) matches Err(e) ==> error_part(e) is Some,
        jwt_result(token) matches Err(e) ==> (error_part(e) == Some(JwtPart::Header)
            <==> part_result(token_parts(token)[0], JwtPart::Header) is Err),
{
}

// ---------------------------------------------------------------------------
// Highlighting
// ---------------------------------------------------------------------------

/// A `span` of the given class around `body`.
pub open spec fn class_span(class: Seq<char>, body: Seq<char>) -> Seq<char> {
    "<span class=\""@ + class + "\">"@ + body + "</span>"@
}

/// The highlighted form of a token: where it has three dot-separated parts,
/// each part escaped in a span of its own class, with a span around each
/// dot; otherwise the token escaped as it is.
pub open spec fn highlighted(token: Seq<char>) -> Seq<char> {
    let parts = split_on(token, '.');
    if parts.len() != 3 {
        html_escaped(token)
    } else {
        class_span(CSS_HEADER@, html_escaped(parts[0])) + class_span(CSS_DELIMITER@, seq!['.'])
            + class_span(CSS_PAYLOAD@, html_escaped(parts[1])) + class_span(
            CSS_DELIMITER@,
            seq!['.'],
        ) + class_span(CSS_SIGNATURE@, html_escaped(parts[2]))
    }
}

/// The overlay holds markup exactly when the token has three dot-separated
/// parts: then it opens with a span, and otherwise it is the escaped token,
/// which holds no `<` at all.
pub proof fn lemma_highlight_marks_three_parts(token: Seq<char>)
    ensures
        (exists|i: int| 0 <= i < highlighted(token).len() && #[trigger] highlighted(token)[i] == '<')
            <==> split_on(token, '.').len() == 3,
        split_on(token, '.').len() == 3 ==> highlighted(token)[0] == '<',
{
    reveal_strlit("<span class=\"");
    if split_on(token, '.').len() == 3 {
        let parts = split_on(token, '.');
        let first = class_span(CSS_HEADER@, html_escaped(parts[0]));
        assert(first[0] == '<');
        assert(highlighted(token)[0] == first[0]);
    } else {
        lemma_escaped_has_no_angle_brackets(token);
    }
}

/// Appends a span of class `class` around the escaped `body`.
fn push_class_span(out: &mut String, class: &str, body: &Vec<char>)
    ensures
        final(out)@ == old(out)@ + class_span(class@, html_escaped(body@)),
{
    out.append("<span class=\"");
    out.append(class);
    out.append("\">");
    push_escaped(out, body);
    out.append("</span>");
}

/// The HTML that overlays a token in the input box, colouring each part.
pub fn colorize_token(input: &str) -> (html: String)
    ensures
        html@ == highlighted(input@),
{
    let chars = chars_of(input);
    let parts = split_chars(&chars, JWT_DELIMITER);
    if parts.len() != JWT_PART_COUNT {
        let mut out = String::new();
        push_escaped(&mut out, &chars);
        return out;
    }
    proof {
        assert(views_of(parts@)[0] == parts@[0]@);
        assert(views_of(parts@)[1] == parts@[1]@);
        assert(views_of(parts@)[2] == parts@[2]@);
    }
    let dot: Vec<char> = vec!['.'];
    proof {
        assert(html_escaped(dot@) =~= seq!['.']) by {
            assert(dot@ =~= seq!['.']);
            assert(dot@.drop_last() =~= Seq::<char>::empty());
            assert(html_escaped(dot@.drop_last()) =~= Seq::<char>::empty());
            assert(escaped_char('.') =~= seq!['.']);
        }
    }
    let mut out = String::new();
    push_class_span(&mut out, CSS_HEADER, &parts[0]);
    push_class_span(&mut out, CSS_DELIMITER, &dot);
    push_class_span(&mut out, CSS_PAYLOAD, &parts[1]);
    push_class_span(&mut out, CSS_DELIMITER, &dot);
    push_class_span(&mut out, CSS_SIGNATURE, &parts[2]);
    out
}

// ---------------------------------------------------------------------------
// What the page shows
// ---------------------------------------------------------------------------

/// What the decoder page shows below the input box.
pub enum OutputBody {
    /// Nothing: the input is blank.
    Clear,
    /// The pretty-printed header and payload, as HTML.
    Decoded { header_html: String, payload_html: String },
    /// An error message.
    Failed { message: String },
}

/// Everything the decoder page shows for one input.
pub struct OutputPlan {
    /// The coloured overlay of the input box.
    pub highlight_html: String,
    /// The area below it.
    pub body: OutputBody,
}

/// Decoded text shown preformatted.
pub open spec fn pre_block(text: Seq<char>) -> Seq<char> {
    "<pre>"@ + html_escaped(text) + "</pre>"@
}

/// Whether `body` shows the decoding outcome `r`.
pub open spec fn shows_outcome(body: OutputBody, r: Result<(Seq<char>, Seq<char>), DecodeError>) -> bool {
    match r {
        Ok((h, p)) => body matches OutputBody::Decoded { header_html, payload_html } && header_html@
            == pre_block(h) && payload_html@ == pre_block(p),
        Err(e) => body matches OutputBody::Failed { message } && message@ == e.message_text(),
    }
}

/// A preformatted block holds the whole text: it is the escaped text
/// between `<pre>` and `</pre>`, never shorter than the text, and different
/// texts give different blocks.
pub proof fn lemma_pre_block_keeps_text(a: Seq<char>, b: Seq<char>)
    ensures
        pre_block(a).len() == html_escaped(a).len() + 11,
        pre_block(a).len() >= a.len() + 11,
        pre_block(a).subrange(5, pre_block(a).len() - 6) == html_escaped(a),
        pre_block(a) == pre_block(b) ==> a == b,
{
    reveal_strlit("<pre>");
    reveal_strlit("</pre>");
    lemma_escape_no_shorter(a);
    lemma_escape_no_shorter(b);
    let pa = pre_block(a);
    let pb = pre_block(b);
    assert(pa.subrange(5, pa.len() - 6) =~= html_escaped(a));
    assert(pb.subrange(5, pb.len() - 6) =~= html_escaped(b));
    if pa == pb {
        lemma_escape_injective(a, b);
    }
}

/// Text shown preformatted in HTML.
fn pre_html(text: &String) -> (html: String)
    ensures
        html@ == pre_block(text@),
{
    let chars = chars_of(text.as_str());
    let mut out = String::new();
    out.append("<pre>");
    push_escaped(&mut out, &chars);
    out.append("</pre>");
    out
}

/// What the page shows for a decoding outcome.
pub fn present_outcome(r: Result<DecodedJwt, DecodeError>) -> (body: OutputBody)
    ensures
        shows_outcome(body, jwt_outcome(r)),
{
    match r {
        Ok(d) => {
            let header_html = pre_html(&d.header);
            let payload_html = pre_html(&d.payload);
            OutputBody::Decoded { header_html, payload_html }
        },
        Err(e) => {
            let message = String::from_str(e.message());
            OutputBody::Failed { message }
        },
    }
}

/// What the decoder page shows for the input `token`: the coloured overlay
/// always; nothing below it for a blank input; else the decoded parts or the
/// error message.
pub fn plan_output(token: &str) -> (plan: OutputPlan)
    ensures
        plan.highlight_html@ == highlighted(token@),
        plan.body is Clear <==> trimmed(token@).len() == 0,
        !(plan.body is Clear) ==> shows_outcome(plan.body, jwt_result(token@)),
{
    let highlight_html = colorize_token(token);
    let chars = chars_of(token);
    let trimmed_chars = trim_chars(&chars);
    if trimmed_chars.len() == 0 {
        return OutputPlan { highlight_html, body: OutputBody::Clear };
    }
    let outcome = decode_jwt(token);
    let body = present_outcome(outcome);
    OutputPlan { highlight_html, body }
}

} // verus!
